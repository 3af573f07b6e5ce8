use mq_text::{Color, ColoredStr, Component, DrawFrom, Fonts, TextParams};

fn be16(v: &mut Vec<u8>, x: u16) {
    v.extend_from_slice(&x.to_be_bytes());
}

fn be32(v: &mut Vec<u8>, x: u32) {
    v.extend_from_slice(&x.to_be_bytes());
}

fn zeros(v: &mut Vec<u8>, n: usize) {
    v.extend(std::iter::repeat(0u8).take(n));
}

/// Builds a minimal TrueType font with 20 units per em and no outlines:
/// glyph 0 (the "missing glyph") advances 10 units, and each `(char,
/// advance)` mapping gets its own glyph. At a pixel size of 20 one unit is
/// exactly one pixel, so the advances below are exact pixel values.
fn build_font(mappings: &[(char, u16)]) -> Vec<u8> {
    build_font_with(mappings, None)
}

/// Like `build_font`, optionally with a `name` table holding one Windows
/// Unicode full-name record whose data is the given raw bytes — valid or
/// deliberately malformed UTF-16.
fn build_font_with(mappings: &[(char, u16)], full_name: Option<&[u8]>) -> Vec<u8> {
    let nglyphs: u16 = mappings.len() as u16 + 1;

    let mut head = Vec::new();
    be32(&mut head, 0x00010000); // version
    be32(&mut head, 0); // fontRevision
    be32(&mut head, 0); // checkSumAdjustment
    be32(&mut head, 0x5F0F3CF5); // magicNumber
    be16(&mut head, 0); // flags
    be16(&mut head, 20); // unitsPerEm
    zeros(&mut head, 16); // created + modified
    be16(&mut head, 0); // xMin
    be16(&mut head, 0); // yMin
    be16(&mut head, 0); // xMax
    be16(&mut head, 0); // yMax
    be16(&mut head, 0); // macStyle
    be16(&mut head, 8); // lowestRecPPEM
    be16(&mut head, 2); // fontDirectionHint
    be16(&mut head, 0); // indexToLocFormat
    be16(&mut head, 0); // glyphDataFormat

    let mut hhea = Vec::new();
    be32(&mut hhea, 0x00010000); // version
    be16(&mut hhea, 16); // ascender
    be16(&mut hhea, (-4i16) as u16); // descender
    be16(&mut hhea, 0); // lineGap
    be16(&mut hhea, 100); // advanceWidthMax
    be16(&mut hhea, 0); // minLeftSideBearing
    be16(&mut hhea, 0); // minRightSideBearing
    be16(&mut hhea, 0); // xMaxExtent
    be16(&mut hhea, 1); // caretSlopeRise
    be16(&mut hhea, 0); // caretSlopeRun
    be16(&mut hhea, 0); // caretOffset
    zeros(&mut hhea, 8); // reserved
    be16(&mut hhea, 0); // metricDataFormat
    be16(&mut hhea, nglyphs); // numberOfHMetrics

    let mut maxp = Vec::new();
    be32(&mut maxp, 0x00010000); // version
    be16(&mut maxp, nglyphs);
    zeros(&mut maxp, 26); // remaining limits

    let mut hmtx = Vec::new();
    be16(&mut hmtx, 10); // glyph 0 advance
    be16(&mut hmtx, 0); // glyph 0 left side bearing
    for (_, adv) in mappings {
        be16(&mut hmtx, *adv);
        be16(&mut hmtx, 0);
    }

    // cmap with one format-4 subtable: one segment per mapped character,
    // plus the required final 0xFFFF segment.
    let seg_count: u16 = mappings.len() as u16 + 1;
    let entry_selector: u16 = 15 - seg_count.leading_zeros() as u16; // floor(log2(segCount))
    let search_range: u16 = 2 << entry_selector; // 2 * 2^entrySelector
    let mut sub = Vec::new();
    be16(&mut sub, 4); // format
    be16(&mut sub, 16 + 8 * seg_count); // length
    be16(&mut sub, 0); // language
    be16(&mut sub, seg_count * 2);
    be16(&mut sub, search_range);
    be16(&mut sub, entry_selector);
    be16(&mut sub, seg_count * 2 - search_range);
    for (c, _) in mappings {
        be16(&mut sub, *c as u16); // endCode
    }
    be16(&mut sub, 0xFFFF);
    be16(&mut sub, 0); // reservedPad
    for (c, _) in mappings {
        be16(&mut sub, *c as u16); // startCode
    }
    be16(&mut sub, 0xFFFF);
    for (i, (c, _)) in mappings.iter().enumerate() {
        let gid = i as u16 + 1;
        be16(&mut sub, gid.wrapping_sub(*c as u16)); // idDelta
    }
    be16(&mut sub, 1); // idDelta of the 0xFFFF segment: maps to glyph 0
    for _ in 0..seg_count {
        be16(&mut sub, 0); // idRangeOffset
    }
    let mut cmap = Vec::new();
    be16(&mut cmap, 0); // version
    be16(&mut cmap, 1); // numTables
    be16(&mut cmap, 3); // platformID: Windows
    be16(&mut cmap, 1); // encodingID: Unicode BMP
    be32(&mut cmap, 12); // subtable offset
    cmap.extend_from_slice(&sub);

    let name = full_name.map(|payload| {
        let mut t = Vec::new();
        be16(&mut t, 0); // version
        be16(&mut t, 1); // count
        be16(&mut t, 18); // storageOffset: right after the single record
        be16(&mut t, 3); // platformID: Windows
        be16(&mut t, 1); // encodingID: Unicode BMP
        be16(&mut t, 0x0409); // languageID
        be16(&mut t, 4); // nameID: full font name
        be16(&mut t, payload.len() as u16);
        be16(&mut t, 0); // offset into storage
        t.extend_from_slice(payload);
        t
    });

    // sfnt directory, tables sorted by tag.
    let mut tables: Vec<(&[u8; 4], &Vec<u8>)> = vec![
        (b"cmap", &cmap),
        (b"head", &head),
        (b"hhea", &hhea),
        (b"hmtx", &hmtx),
        (b"maxp", &maxp),
    ];
    if let Some(t) = name.as_ref() {
        tables.push((b"name", t));
    }
    let mut font = Vec::new();
    be32(&mut font, 0x00010000); // sfnt version
    be16(&mut font, tables.len() as u16);
    be16(&mut font, 64); // searchRange
    be16(&mut font, 2); // entrySelector
    be16(&mut font, 16); // rangeShift
    let mut offset = 12 + 16 * tables.len() as u32;
    let mut records = Vec::new();
    let mut data = Vec::new();
    for (tag, body) in &tables {
        records.extend_from_slice(*tag);
        be32(&mut records, 0); // checksum (not verified by the parser)
        be32(&mut records, offset);
        be32(&mut records, body.len() as u32);
        data.extend_from_slice(body);
        let pad = (4 - body.len() % 4) % 4;
        zeros(&mut data, pad);
        offset += (body.len() + pad) as u32;
    }
    font.extend_from_slice(&records);
    font.extend_from_slice(&data);
    font
}

/// A font mapping 'A' (advance 12px at size 20) and 'B' (7px).
fn font_one() -> Vec<u8> {
    build_font(&[('A', 12), ('B', 7)])
}

/// A font mapping 'A' (advance 16px at size 20) and 'C' (5px).
fn font_two() -> Vec<u8> {
    build_font(&[('A', 16), ('C', 5)])
}

fn white() -> Color {
    Color::from_rgba(255, 255, 255, 255)
}

#[test]
fn loads_fonts_and_indexes_names() {
    let mut fonts = Fonts::default();
    fonts
        .load_font_from_bytes(String::from("one"), &font_one())
        .unwrap();
    fonts
        .load_font_from_bytes(String::from("two"), &font_two())
        .unwrap();
    assert_eq!(fonts.fonts().len(), 2);
    assert_eq!(fonts.get_index_by_name(&String::from("one")), Some(0));
    assert_eq!(fonts.get_index_by_name(&String::from("two")), Some(1));
    assert_eq!(fonts.get_index_by_name(&String::from("none")), None);
    let f = fonts.get_font_by_name(&String::from("two")).unwrap();
    assert_eq!(f.name(), "two");
    assert!(fonts.get_font_by_index(0).is_some());
    assert!(fonts.get_font_by_index(2).is_none());
}

#[test]
fn load_rejects_malformed_bytes_without_changes() {
    let mut fonts = Fonts::default();
    let r = fonts.load_font_from_bytes(String::from("bad"), b"definitely not a font");
    assert!(r.is_err());
    assert_eq!(fonts.fonts().len(), 0);
    assert_eq!(fonts.get_index_by_name(&String::from("bad")), None);
}

#[test]
fn resolution_prefers_first_registered_font() {
    // Both fonts contain 'A': resolution must pick the first-registered
    // one, whichever that is.
    let mut fonts = Fonts::default();
    fonts
        .load_font_from_bytes(String::from("one"), &font_one())
        .unwrap();
    fonts
        .load_font_from_bytes(String::from("two"), &font_two())
        .unwrap();
    assert!(fonts.contains('A'));
    assert!(fonts.contains('B'));
    assert!(fonts.contains('C'));
    assert!(!fonts.contains('Z'));
    assert_eq!(fonts.get_index_by_char('A'), Some(0));
    assert_eq!(fonts.get_index_by_char('B'), Some(0));
    assert_eq!(fonts.get_index_by_char('C'), Some(1));
    assert_eq!(fonts.get_index_by_char('Z'), None);

    let mut reversed = Fonts::default();
    reversed
        .load_font_from_bytes(String::from("two"), &font_two())
        .unwrap();
    reversed
        .load_font_from_bytes(String::from("one"), &font_one())
        .unwrap();
    assert_eq!(reversed.get_index_by_char('A'), Some(0));
    assert_eq!(reversed.get_index_by_char('C'), Some(0));
    assert_eq!(reversed.get_index_by_char('B'), Some(1));
}

#[test]
fn get_font_by_char_falls_back_to_first_font() {
    let mut fonts = Fonts::default();
    fonts
        .load_font_from_bytes(String::from("one"), &font_one())
        .unwrap();
    assert!(fonts.get_font_by_char('Z').is_none());
    assert_eq!(fonts.get_font_by_char_or_panic('Z').name(), "one");
    assert_eq!(fonts.get_font_by_char_or_panic('B').name(), "one");
}

#[test]
fn unloading_compacts_surviving_indices() {
    // Unloading the font at index 0 shifts the font that was at index 1
    // down to index 0.
    let mut fonts = Fonts::default();
    fonts
        .load_font_from_bytes(String::from("one"), &font_one())
        .unwrap();
    fonts
        .load_font_from_bytes(String::from("two"), &font_two())
        .unwrap();
    fonts
        .load_font_from_bytes(String::from("three"), &font_one())
        .unwrap();
    fonts.unload_font_by_index(0);
    assert_eq!(fonts.fonts().len(), 2);
    assert_eq!(fonts.get_index_by_name(&String::from("two")), Some(0));
    assert_eq!(fonts.get_index_by_name(&String::from("three")), Some(1));
    assert_eq!(fonts.get_index_by_name(&String::from("one")), None);
}

#[test]
fn unloading_by_name_is_idempotent() {
    let mut fonts = Fonts::default();
    fonts
        .load_font_from_bytes(String::from("one"), &font_one())
        .unwrap();
    fonts.unload_font_by_name(&String::from("nosuch"));
    assert_eq!(fonts.fonts().len(), 1);
    fonts.unload_font_by_name(&String::from("one"));
    assert_eq!(fonts.fonts().len(), 0);
    fonts.unload_font_by_name(&String::from("one"));
    assert_eq!(fonts.fonts().len(), 0);
}

#[test]
fn out_of_range_unload_is_a_silent_noop() {
    let mut fonts = Fonts::default();
    fonts
        .load_font_from_bytes(String::from("one"), &font_one())
        .unwrap();
    fonts.unload_font_by_index(5);
    assert_eq!(fonts.fonts().len(), 1);
}

#[test]
fn caching_a_glyph_twice_keeps_its_atlas_slot() {
    // Idempotence: the second identical call must not allocate a second
    // atlas slot; the cached slot id stays stable.
    let mut fonts = Fonts::default();
    fonts
        .load_font_from_bytes(String::from("one"), &font_one())
        .unwrap();
    assert!(fonts.cache_glyph('A', 20));
    let first = fonts.glyph_info('A', 20).unwrap();
    assert!(fonts.cache_glyph('A', 20));
    let second = fonts.glyph_info('A', 20).unwrap();
    assert_eq!(first, second);
    assert!(fonts.atlas().get(first.id).is_some());
}

#[test]
fn measure_sums_exact_advances() {
    // 'A' advances 12px at size 20 in the first font; "AA" measures 24.
    let mut fonts = Fonts::default();
    fonts
        .load_font_from_bytes(String::from("one"), &font_one())
        .unwrap();
    let one = fonts.measure_text(&['A'], 20).unwrap();
    assert_eq!(one.width, 12);
    let two = fonts.measure_text(&['A', 'A'], 20).unwrap();
    assert_eq!(two.width, 24);
    let mixed = fonts.measure_text(&['A', 'B'], 20).unwrap();
    assert_eq!(mixed.width, 19);
    let empty = fonts.measure_text(&[], 20).unwrap();
    assert_eq!((empty.width, empty.height, empty.offset_y), (0, 0, 0));
}

#[test]
fn unresolvable_characters_degrade_to_the_first_font() {
    // No font contains 'Z': it rasterizes as the first font's missing
    // glyph, whose advance is 10 units.
    let mut fonts = Fonts::default();
    fonts
        .load_font_from_bytes(String::from("one"), &font_one())
        .unwrap();
    let dims = fonts.measure_text(&['Z'], 20).unwrap();
    assert_eq!(dims.width, 10);
}

#[test]
fn scaled_measure_multiplies_each_term() {
    let mut fonts = Fonts::default();
    fonts
        .load_font_from_bytes(String::from("one"), &font_one())
        .unwrap();
    let dims = fonts.measure_scaled_text(&['A', 'B'], 20, 3).unwrap();
    assert_eq!(dims.width, 57); // (12 + 7) * 3
}

#[test]
fn draw_width_equals_measured_width() {
    // The width a draw reports, and the x positions it assigns, accumulate
    // exactly the advances that measuring sums.
    let mut fonts = Fonts::default();
    fonts
        .load_font_from_bytes(String::from("one"), &font_one())
        .unwrap();
    let measured = fonts.measure_text(&['A', 'B'], 20).unwrap();
    let (dims, cmds) = fonts.draw_text(&['A', 'B'], 5, 0, 20, white()).unwrap();
    assert_eq!(dims.width, measured.width);
    assert_eq!(cmds.len(), 2);
    assert_eq!(cmds[0].x, 5);
    assert_eq!(cmds[1].x - cmds[0].x, 12); // 'A' advances 12px
    assert!(cmds.iter().all(|c| c.color == white()));
}

#[test]
fn draw_char_reports_the_advance() {
    let mut fonts = Fonts::default();
    fonts
        .load_font_from_bytes(String::from("one"), &font_one())
        .unwrap();
    let params = TextParams {
        x: 0,
        y: 0,
        size: 20,
        scale: 1,
        color: white(),
        draw: DrawFrom::BottomLeft,
    };
    let (adv, cmd) = fonts.draw_char('A', 0, &params).unwrap();
    assert_eq!(adv, 12);
    assert_eq!(cmd.color, white());
    let (adv2, cmd2) = fonts.draw_char('A', adv, &params).unwrap();
    assert_eq!(adv2, 12);
    assert_eq!(cmd2.x - cmd.x, 12);
}

#[test]
fn colored_draw_tints_per_character() {
    let red = Color::from_rgba(255, 0, 0, 255);
    let mut fonts = Fonts::default();
    fonts
        .load_font_from_bytes(String::from("one"), &font_one())
        .unwrap();
    let run = ColoredStr::new(vec![
        Component::Char('A'),
        Component::Color(red),
        Component::from("AB"),
    ]);
    let params = TextParams::default();
    let params = TextParams { size: 20, ..params };
    let (dims, cmds) = fonts.draw_colored_text_ex(&run, &params).unwrap();
    assert_eq!(cmds.len(), 3);
    assert_eq!(cmds[0].color, params.color); // before any marker
    assert_eq!(cmds[1].color, red);
    assert_eq!(cmds[2].color, red);
    assert_eq!(dims.width, 12 + 12 + 7);
}

#[test]
fn recaching_tracks_font_set_changes() {
    // After unloading the font 'A' resolved to, recaching re-resolves it
    // to the surviving font and its measured advance changes; the new
    // cache entry gets a fresh atlas slot (ids are never reused).
    let mut fonts = Fonts::default();
    fonts
        .load_font_from_bytes(String::from("one"), &font_one())
        .unwrap();
    fonts
        .load_font_from_bytes(String::from("two"), &font_two())
        .unwrap();
    assert_eq!(fonts.measure_text(&['A'], 20).unwrap().width, 12);
    let before = fonts.glyph_info('A', 20).unwrap();
    fonts.unload_font_by_index(0);
    assert!(fonts.recache_glyphs());
    let after = fonts.glyph_info('A', 20).unwrap();
    assert!(after.id > before.id);
    assert_eq!(fonts.measure_text(&['A'], 20).unwrap().width, 16);
}

#[test]
fn empty_font_set_reports_nothing() {
    let mut fonts = Fonts::default();
    assert_eq!(fonts.fonts().len(), 0);
    assert!(!fonts.contains('A'));
    assert_eq!(fonts.get_index_by_char('A'), None);
    fonts.unload_font_by_index(0);
    assert_eq!(fonts.fonts().len(), 0);
}

#[test]
fn default_params_match_documentation() {
    let p = TextParams::default();
    assert_eq!((p.x, p.y), (0, 0));
    assert_eq!((p.size, p.scale), (22, 1));
    assert_eq!(p.color, white());
    assert_eq!(p.draw, DrawFrom::TopLeft);
    assert_eq!(DrawFrom::default(), DrawFrom::TopLeft);
}

#[test]
fn repeated_measure_changes_nothing() {
    // A second identical measure finds every key cached: it returns the
    // same dimensions and performs no new rasterization or atlas
    // allocation, so the cached slot ids stay put.
    let mut fonts = Fonts::default();
    fonts
        .load_font_from_bytes(String::from("one"), &font_one())
        .unwrap();
    let first = fonts.measure_text(&['A', 'B'], 20).unwrap();
    let id_a = fonts.glyph_info('A', 20).unwrap().id;
    let id_b = fonts.glyph_info('B', 20).unwrap().id;
    let second = fonts.measure_text(&['A', 'B'], 20).unwrap();
    assert_eq!(first, second);
    assert_eq!(fonts.glyph_info('A', 20).unwrap().id, id_a);
    assert_eq!(fonts.glyph_info('B', 20).unwrap().id, id_b);
}

#[test]
fn draw_text_reports_the_measured_box() {
    let mut fonts = Fonts::default();
    fonts
        .load_font_from_bytes(String::from("one"), &font_one())
        .unwrap();
    let measured = fonts.measure_text(&['A', 'B'], 20).unwrap();
    let (dims, _) = fonts.draw_text(&['A', 'B'], 0, 0, 20, white()).unwrap();
    assert_eq!(dims, measured);
}

#[test]
fn malformed_embedded_names_cannot_derail_loading() {
    // The full-name records here are broken UTF-16: an odd-length one and
    // one ending in an unpaired high surrogate. Loading must still succeed
    // (the embedded name is never used) and the glyphs must work.
    let mut fonts = Fonts::default();
    fonts
        .load_font_from_bytes(
            String::from("odd"),
            &build_font_with(&[('A', 12)], Some(&[0x00, 0x41, 0x00])),
        )
        .unwrap();
    fonts
        .load_font_from_bytes(
            String::from("surrogate"),
            &build_font_with(&[('B', 7)], Some(&[0x00, 0x42, 0xD8, 0x00])),
        )
        .unwrap();
    assert_eq!(fonts.fonts().len(), 2);
    assert_eq!(fonts.measure_text(&['A'], 20).unwrap().width, 12);
    assert_eq!(fonts.measure_text(&['B'], 20).unwrap().width, 7);
}

#[test]
fn well_formed_embedded_name_loads_too() {
    let mut fonts = Fonts::default();
    fonts
        .load_font_from_bytes(
            String::from("named"),
            &build_font_with(&[('A', 12)], Some(&[0x00, 0x41, 0x00, 0x42])), // "AB"
        )
        .unwrap();
    assert_eq!(fonts.measure_text(&['A'], 20).unwrap().width, 12);
}
