use mq_text::atlas::{copy_into, sub_image, Atlas, Image, INITIAL_DIM};
use mq_text::ScalingMode;

#[test]
fn transparent_image_is_zeroed() {
    let im = Image::transparent(3, 2);
    assert_eq!(im.width, 3);
    assert_eq!(im.height, 2);
    assert_eq!(im.bytes.len(), 24);
    assert!(im.bytes.iter().all(|b| *b == 0));
}

#[test]
fn coverage_becomes_white_with_alpha() {
    let im = Image::from_coverage(2, 1, &vec![0u8, 200u8]);
    assert_eq!(im.width, 2);
    assert_eq!(im.height, 1);
    assert_eq!(im.bytes, vec![255, 255, 255, 0, 255, 255, 255, 200]);
}

#[test]
fn set_and_get_pixel_round_trip() {
    let mut im = Image::transparent(4, 4);
    im.set_pixel(2, 1, (10, 20, 30, 40));
    assert_eq!(im.get_pixel(2, 1), (10, 20, 30, 40));
    assert_eq!(im.get_pixel(1, 2), (0, 0, 0, 0));
}

#[test]
fn copy_into_places_source_pixels() {
    let mut dst = Image::transparent(8, 8);
    let mut src = Image::transparent(2, 2);
    src.set_pixel(0, 0, (1, 2, 3, 4));
    src.set_pixel(1, 1, (5, 6, 7, 8));
    copy_into(&mut dst, 3, 4, &src);
    assert_eq!(dst.get_pixel(3, 4), (1, 2, 3, 4));
    assert_eq!(dst.get_pixel(4, 5), (5, 6, 7, 8));
    assert_eq!(dst.get_pixel(4, 4), (0, 0, 0, 0));
    assert_eq!(dst.get_pixel(0, 0), (0, 0, 0, 0));
}

#[test]
fn sub_image_extracts_region() {
    let mut src = Image::transparent(6, 6);
    src.set_pixel(2, 3, (9, 9, 9, 9));
    let piece = sub_image(&src, mq_text::Rect { x: 2, y: 3, w: 2, h: 2 });
    assert_eq!(piece.width, 2);
    assert_eq!(piece.height, 2);
    assert_eq!(piece.get_pixel(0, 0), (9, 9, 9, 9));
    assert_eq!(piece.get_pixel(1, 1), (0, 0, 0, 0));
}

#[test]
fn pack_issues_increasing_ids_with_exact_rects() {
    let mut atlas = Atlas::new(ScalingMode::Nearest);
    let a = atlas.pack(&Image::transparent(10, 12)).unwrap();
    let b = atlas.pack(&Image::transparent(7, 5)).unwrap();
    assert!(b > a);
    let ra = atlas.get(a).unwrap();
    let rb = atlas.get(b).unwrap();
    assert_eq!((ra.w, ra.h), (10, 12));
    assert_eq!((rb.w, rb.h), (7, 5));
    assert!(atlas.get(b + 1).is_none());
}

#[test]
fn pack_packs_empty_bitmaps() {
    let mut atlas = Atlas::new(ScalingMode::Linear);
    let id = atlas.pack(&Image::transparent(0, 0)).unwrap();
    let r = atlas.get(id).unwrap();
    assert_eq!((r.w, r.h), (0, 0));
}

#[test]
fn growth_keeps_every_packed_rectangle() {
    // Pack bitmaps whose cumulative area exceeds the initial texture
    // capacity: every previously issued slot id must stay retrievable
    // with its size unchanged; only its position may shift.
    let mut atlas = Atlas::new(ScalingMode::Nearest);
    let mut packed: Vec<(u64, u32, u32)> = Vec::new();
    for i in 0..20u32 {
        let w = 120 + (i % 5) * 17;
        let h = 90 + (i % 7) * 23;
        let id = atlas.pack(&Image::transparent(w, h)).unwrap();
        packed.push((id, w, h));
    }
    assert!(
        atlas.image().width > INITIAL_DIM || atlas.image().height > INITIAL_DIM,
        "packing this much must have grown the atlas"
    );
    for (id, w, h) in packed {
        let r = atlas.get(id).expect("slot lost after growth");
        assert_eq!((r.w, r.h), (w, h));
        assert!(r.x + r.w <= atlas.image().width);
        assert!(r.y + r.h <= atlas.image().height);
    }
}

#[test]
fn dirty_flag_set_by_pack_and_taken_once() {
    let mut atlas = Atlas::new(ScalingMode::Nearest);
    assert!(!atlas.take_dirty());
    atlas.pack(&Image::transparent(3, 3)).unwrap();
    assert!(atlas.take_dirty());
    assert!(!atlas.take_dirty());
}

#[test]
fn packed_pixels_land_in_the_slot_rectangle() {
    let mut atlas = Atlas::new(ScalingMode::Nearest);
    let mut sprite = Image::transparent(3, 2);
    sprite.set_pixel(0, 0, (1, 2, 3, 4));
    sprite.set_pixel(2, 1, (5, 6, 7, 8));
    let id = atlas.pack(&sprite).unwrap();
    let r = atlas.get(id).unwrap();
    assert_eq!(atlas.image().get_pixel(r.x, r.y), (1, 2, 3, 4));
    assert_eq!(atlas.image().get_pixel(r.x + 2, r.y + 1), (5, 6, 7, 8));
    assert_eq!(atlas.image().get_pixel(r.x + 1, r.y), (0, 0, 0, 0));
}

#[test]
fn growth_preserves_packed_pixel_content() {
    // Force growth events and check every slot still holds the pixels of
    // the bitmap packed under it, wherever its rectangle moved.
    let mut atlas = Atlas::new(ScalingMode::Nearest);
    let mut packed: Vec<(u64, u8)> = Vec::new();
    for i in 0..12u32 {
        let mark = (i as u8) + 10;
        let mut sprite = Image::transparent(200, 180);
        sprite.set_pixel(0, 0, (mark, mark, mark, 255));
        sprite.set_pixel(199, 179, (255, mark, 0, mark));
        let id = atlas.pack(&sprite).unwrap();
        packed.push((id, mark));
    }
    assert!(atlas.image().width > INITIAL_DIM || atlas.image().height > INITIAL_DIM);
    for (id, mark) in packed {
        let r = atlas.get(id).unwrap();
        assert_eq!(atlas.image().get_pixel(r.x, r.y), (mark, mark, mark, 255));
        assert_eq!(atlas.image().get_pixel(r.x + 199, r.y + 179), (255, mark, 0, mark));
    }
}
