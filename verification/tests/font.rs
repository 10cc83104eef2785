use sfsprite::codec::ContainerError;
use sfsprite::font::{decode_font, encode_font, SFFont, SFFontGraph};

fn glyph(code: u32, data: Vec<u8>) -> SFFontGraph {
    SFFontGraph { code, width: 4, height: 4, data_width: 4, data }
}

fn sample_font() -> SFFont {
    // 4x4 cells: 16 pixels, 4 payload bytes per glyph.
    SFFont {
        graph_size: (4, 4),
        graphs: vec![
            glyph(66, vec![0b01, 0, 0, 0]),
            glyph(65, vec![0b1110_0100, 0, 0, 0]),
            glyph(67, vec![0, 0, 0, 0]),
        ],
    }
}

#[test]
fn font_encode_sorts_and_drops_blank_glyphs() {
    let font = sample_font();
    let bytes = encode_font(&font).expect("payloads have the cell size");
    let back = decode_font(&bytes).expect("the encoding decodes");
    assert_eq!(back.graph_size, (4, 4));
    // Glyph 67 is blank and dropped; 65 and 66 come back sorted.
    assert_eq!(back.graphs.len(), 2);
    assert_eq!(back.graphs[0].code, 65);
    assert_eq!(back.graphs[1].code, 66);
    assert_eq!(back.graphs[0].data, vec![0b1110_0100, 0, 0, 0]);
}

#[test]
fn font_decode_reads_fixed_stride_records() {
    let bytes = vec![
        4, 4, // cell size
        1, 0, 0, 0, // one glyph
        65, 0, 0, 0, // code
        4, 4, 4, // width, height, data width
        0x1B, 0, 0, 0, // payload
    ];
    let font = decode_font(&bytes).unwrap();
    assert_eq!(font.graphs.len(), 1);
    assert_eq!(font.graphs[0].code, 65);
    assert_eq!(font.graphs[0].data, vec![0x1B, 0, 0, 0]);
}

#[test]
fn font_decode_rejects_short_input() {
    assert_eq!(decode_font(&[4, 4, 0, 0]), Err(ContainerError::TruncatedInput));
    // One glyph declared, no record present.
    assert_eq!(decode_font(&[4, 4, 1, 0, 0, 0]), Err(ContainerError::TruncatedInput));
}

#[test]
fn font_encode_rejects_wrong_payload_size() {
    let mut font = sample_font();
    font.graphs[0].data.push(0);
    assert_eq!(encode_font(&font), Err(ContainerError::MalformedSection));
}

#[test]
fn glyph_pixels_unpack_two_bit_values_low_first() {
    // 0b1110_0100: pixel values 0, 1, 2, 3 left to right.
    let g = glyph(65, vec![0b1110_0100, 0, 0, 0]);
    let pixels = g.draw_graph();
    assert_eq!(pixels.len(), 16);
    for (i, expected) in [0u8, 1, 2, 3].iter().enumerate() {
        assert_eq!((pixels[i].x, pixels[i].y, pixels[i].value), (i, 0, *expected));
    }
    assert_eq!((pixels[4].x, pixels[4].y, pixels[4].value), (0, 1, 0));
}

#[test]
fn glyph_with_no_whole_row_byte_draws_nothing() {
    let g = SFFontGraph { code: 65, width: 2, height: 4, data_width: 2, data: vec![1, 2] };
    assert_eq!(g.draw_graph().len(), 0);
}

#[test]
fn get_graph_finds_the_first_match() {
    let font = sample_font();
    assert_eq!(font.get_graph('A').unwrap().code, 65);
    assert_eq!(font.get_graph('B').unwrap().code, 66);
    assert!(font.get_graph('Z').is_none());
}

#[test]
fn font_draw_graph_walks_bytes_row_major() {
    let font = sample_font();
    let pixels = font.draw_graph('B');
    // The byte-per-pixel path: 4 payload bytes in rows of the advance
    // width 4.
    assert_eq!(pixels.len(), 4);
    assert_eq!((pixels[0].x, pixels[0].y, pixels[0].value), (0, 0, 0b01));
    assert_eq!((pixels[3].x, pixels[3].y, pixels[3].value), (3, 0, 0));
    assert_eq!(font.draw_graph('Z').len(), 0);
}

#[test]
fn draw_text_advances_and_breaks_lines() {
    let font = sample_font();
    let pixels = font.draw_text("AB\nA");
    // Each glyph stamps 16 packed pixels; unknown characters are skipped.
    assert_eq!(pixels.len(), 48);
    // 'A' starts at the origin.
    assert_eq!((pixels[0].x, pixels[0].y), (0, 0));
    // 'B' is shifted right by the width of 'A'.
    assert_eq!((pixels[16].x, pixels[16].y), (4, 0));
    assert_eq!(pixels[16].value, 0b01);
    // After the line break the pen returns to x = 0, one cell down.
    assert_eq!((pixels[32].x, pixels[32].y), (0, 4));
    // Unknown characters leave no trace.
    assert_eq!(font.draw_text("ZZ").len(), 0);
}
