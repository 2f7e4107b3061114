use atlas_packer::atlas::{gen_atlas, isqrt, pack_atlas, try_gen_atlas, Progress};
use atlas_packer::geometry::Region;
use atlas_packer::packing::recursive_pack;
use atlas_packer::atlas_key::{AtlasEntry, AtlasKey};
use atlas_packer::image_extract::TextureData;
use atlas_packer::texture::Texture;

/// An opaque texture whose pixel (x, y) is [x, y, tag, 255].
fn pattern(name: &str, w: u32, h: u32, tag: u8, padding: u32) -> TextureData {
    let mut px = Vec::new();
    for y in 0..h {
        for x in 0..w {
            px.extend_from_slice(&[x as u8, y as u8, tag, 255]);
        }
    }
    TextureData::new(name.to_string(), Texture::from_raw(w, h, px).unwrap(), padding)
}

fn pixel(t: &Texture, x: u32, y: u32) -> [u8; 4] {
    let i = (4 * (y * t.width() + x)) as usize;
    let p = t.pixels();
    [p[i], p[i + 1], p[i + 2], p[i + 3]]
}

fn get(k: &AtlasKey, n: &str) -> Option<AtlasEntry> {
    k.get(&n.to_string())
}

#[test]
fn isqrt_values() {
    assert_eq!(isqrt(0), 0);
    assert_eq!(isqrt(1), 1);
    assert_eq!(isqrt(3), 1);
    assert_eq!(isqrt(4), 2);
    assert_eq!(isqrt(15), 3);
    assert_eq!(isqrt(16), 4);
    assert_eq!(isqrt(u32::MAX), 65535);
}

#[test]
fn gen_atlas_single_texture_shrinks_to_fit() {
    let (atlas, key) = gen_atlas(vec![pattern("a", 9, 9, 1, 0)], false, &mut Vec::new());
    assert_eq!(atlas.dimensions(), (9, 9));
    assert_eq!(get(&key, "a"), Some(AtlasEntry::new(0, 0, 9, 9, false)));
    for y in 0..9 {
        for x in 0..9 {
            assert_eq!(pixel(&atlas, x, y), [x as u8, y as u8, 1, 255]);
        }
    }
}

#[test]
fn gen_atlas_big_and_small() {
    let (atlas, key) = gen_atlas(vec![pattern("small", 1, 1, 2, 0), pattern("big", 8, 8, 3, 0)], false, &mut Vec::new());
    assert_eq!(atlas.dimensions(), (9, 9));
    assert_eq!(get(&key, "big"), Some(AtlasEntry::new(0, 0, 8, 8, false)));
    assert_eq!(get(&key, "small"), Some(AtlasEntry::new(0, 8, 1, 1, false)));
    assert_eq!(pixel(&atlas, 0, 8), [0, 0, 2, 255]);
    assert_eq!(pixel(&atlas, 7, 7), [7, 7, 3, 255]);
    // cells that no texture covers stay fully transparent
    assert_eq!(pixel(&atlas, 8, 0), [0, 0, 0, 0]);
    assert_eq!(pixel(&atlas, 8, 8), [0, 0, 0, 0]);
}

#[test]
fn gen_atlas_rotates_when_allowed() {
    let (atlas, key) = gen_atlas(vec![pattern("a", 3, 1, 4, 0), pattern("b", 2, 4, 5, 0)], true, &mut Vec::new());
    assert_eq!(atlas.dimensions(), (4, 4));
    assert_eq!(get(&key, "b"), Some(AtlasEntry::new(0, 0, 2, 4, false)));
    assert_eq!(get(&key, "a"), Some(AtlasEntry::new(2, 0, 1, 3, true)));
    // the 3x1 texture turned clockwise stands in column 2, its first pixel on top
    assert_eq!(pixel(&atlas, 2, 0), [0, 0, 4, 255]);
    assert_eq!(pixel(&atlas, 2, 1), [1, 0, 4, 255]);
    assert_eq!(pixel(&atlas, 2, 2), [2, 0, 4, 255]);
    assert_eq!(pixel(&atlas, 3, 0), [0, 0, 0, 0]);
    assert_eq!(pixel(&atlas, 1, 3), [1, 3, 5, 255]);
}

#[test]
fn gen_atlas_without_rotation() {
    let (atlas, key) = gen_atlas(vec![pattern("a", 3, 1, 4, 0), pattern("b", 2, 4, 5, 0)], false, &mut Vec::new());
    assert_eq!(atlas.dimensions(), (5, 5));
    assert_eq!(get(&key, "b"), Some(AtlasEntry::new(0, 0, 2, 4, false)));
    assert_eq!(get(&key, "a"), Some(AtlasEntry::new(2, 0, 3, 1, false)));
}

#[test]
fn gen_atlas_with_padding() {
    let images = vec![pattern("a", 6, 7, 1, 0), pattern("b", 2, 6, 2, 0), pattern("c", 7, 5, 3, 1)];
    let (atlas, key) = gen_atlas(images, true, &mut Vec::new());
    assert_eq!(atlas.dimensions(), (12, 12));
    assert_eq!(get(&key, "a"), Some(AtlasEntry::new(0, 0, 6, 7, false)));
    assert_eq!(get(&key, "b"), Some(AtlasEntry::new(0, 7, 6, 2, true)));
    assert_eq!(get(&key, "c"), Some(AtlasEntry::new(6, 0, 5, 7, true)));
    let images = vec![pattern("a", 6, 7, 1, 0), pattern("b", 2, 6, 2, 0), pattern("c", 7, 5, 3, 1)];
    let (atlas, key) = gen_atlas(images, false, &mut Vec::new());
    assert_eq!(atlas.dimensions(), (14, 14));
    assert_eq!(get(&key, "b"), Some(AtlasEntry::new(0, 7, 2, 6, false)));
    assert_eq!(get(&key, "c"), Some(AtlasEntry::new(6, 0, 7, 5, false)));
}

#[test]
fn gen_atlas_single_small_texture() {
    // doubling finds side 2, and the binary search keeps it
    let (atlas, key) = gen_atlas(vec![pattern("a", 2, 2, 1, 0)], true, &mut Vec::new());
    assert_eq!(atlas.dimensions(), (2, 2));
    assert_eq!(get(&key, "a"), Some(AtlasEntry::new(0, 0, 2, 2, false)));
    assert_eq!(pixel(&atlas, 1, 1), [1, 1, 1, 255]);
    let (atlas, key) = gen_atlas(vec![pattern("a", 2, 2, 1, 0), pattern("b", 2, 2, 1, 0)], false, &mut Vec::new());
    assert_eq!(atlas.dimensions(), (4, 4));
    assert_eq!(get(&key, "a"), Some(AtlasEntry::new(0, 0, 2, 2, false)));
    assert_eq!(get(&key, "b"), Some(AtlasEntry::new(0, 2, 2, 2, false)));
}

#[test]
fn gen_atlas_four_squares_all_placed() {
    let images = vec![
        pattern("a", 2, 2, 1, 0),
        pattern("b", 2, 2, 2, 0),
        pattern("c", 2, 2, 3, 0),
        pattern("d", 2, 2, 4, 0),
    ];
    let (atlas, key) = gen_atlas(images, true, &mut Vec::new());
    assert_eq!(atlas.dimensions(), (4, 4));
    assert_eq!(key.entries().len(), 4);
    assert_eq!(get(&key, "a"), Some(AtlasEntry::new(0, 0, 2, 2, false)));
    assert_eq!(get(&key, "b"), Some(AtlasEntry::new(0, 2, 2, 2, false)));
    assert_eq!(get(&key, "c"), Some(AtlasEntry::new(2, 0, 2, 2, false)));
    assert_eq!(get(&key, "d"), Some(AtlasEntry::new(2, 2, 2, 2, false)));
    assert_eq!(pixel(&atlas, 3, 3), [1, 1, 4, 255]);
}

#[test]
fn gen_atlas_reports_progress() {
    let mut progress = Vec::new();
    let (atlas, _key) = gen_atlas(vec![pattern("a", 9, 9, 1, 0)], false, &mut progress);
    assert_eq!(atlas.dimensions(), (9, 9));
    let expected = vec![
        Progress::Calibrating,
        Progress::CalibrationFailed { unpacked: 1, upper_bound: 8 },
        Progress::CalibrationFailed { unpacked: 1, upper_bound: 16 },
        Progress::Calibrated { upper_bound: 16 },
        Progress::Iteration { iteration: 0, best: 16, lower_bound: 1, upper_bound: 16, midpoint: 8 },
        Progress::Iteration { iteration: 1, best: 16, lower_bound: 8, upper_bound: 16, midpoint: 12 },
        Progress::Iteration { iteration: 2, best: 12, lower_bound: 8, upper_bound: 12, midpoint: 10 },
        Progress::Iteration { iteration: 3, best: 10, lower_bound: 8, upper_bound: 10, midpoint: 9 },
    ];
    assert_eq!(progress, expected);
}

#[test]
fn gen_atlas_duplicate_names_keep_last_entry() {
    let images = vec![pattern("x", 8, 8, 1, 0), pattern("y", 1, 1, 2, 0), pattern("x", 1, 1, 3, 0)];
    let (atlas, key) = gen_atlas(images, false, &mut Vec::new());
    assert_eq!(atlas.dimensions(), (9, 9));
    assert_eq!(key.entries().len(), 2);
    assert_eq!(get(&key, "x"), Some(AtlasEntry::new(1, 8, 1, 1, false)));
    assert_eq!(get(&key, "y"), Some(AtlasEntry::new(0, 8, 1, 1, false)));
}

#[test]
fn pack_atlas_keeps_given_order() {
    // pack_atlas itself does not sort: the small texture goes first
    let mut key = AtlasKey::new();
    let atlas = pack_atlas(vec![pattern("small", 1, 1, 2, 0), pattern("big", 8, 8, 3, 0)], &mut key, false, &mut Vec::new());
    let side = atlas.width();
    assert_eq!(atlas.height(), side);
    let small = get(&key, "small").unwrap();
    assert_eq!((small.x, small.y), (0, 0));
}

#[test]
fn try_gen_atlas_runs_where_gen_atlas_does() {
    let r = try_gen_atlas(vec![pattern("a", 9, 9, 1, 0)], false, &mut Vec::new()).unwrap();
    assert_eq!(r.0.dimensions(), (9, 9));
    assert_eq!(get(&r.1, "a"), Some(AtlasEntry::new(0, 0, 9, 9, false)));
}

#[test]
fn try_gen_atlas_refuses_empty_input() {
    assert!(try_gen_atlas(vec![], true, &mut Vec::new()).is_none());
    let empty = TextureData::new("e".to_string(), Texture::new(0, 0), 0);
    assert!(try_gen_atlas(vec![empty], true, &mut Vec::new()).is_none());
}

#[test]
fn try_gen_atlas_refuses_padding_that_never_fits() {
    // a 0x0 image with padding 1: the sum of sizes is 0
    let t = TextureData::new("p".to_string(), Texture::new(0, 0), 1);
    assert!(try_gen_atlas(vec![t], false, &mut Vec::new()).is_none());
}

#[test]
fn layout_entries_inside_and_apart() {
    let images = vec![
        pattern("a", 6, 3, 1, 1),
        pattern("b", 1, 5, 2, 0),
        pattern("c", 6, 1, 3, 1),
        pattern("d", 3, 6, 4, 1),
    ];
    let (atlas, key) = gen_atlas(images, true, &mut Vec::new());
    let side = atlas.width();
    assert_eq!(side, 9);
    assert_eq!(get(&key, "d"), Some(AtlasEntry::new(0, 4, 6, 3, true)));
    let entries: Vec<AtlasEntry> = key.entries().iter().map(|(_, e)| *e).collect();
    assert_eq!(entries.len(), 4);
    for e in &entries {
        assert!(e.x + e.width <= side && e.y + e.height <= side);
    }
    for (i, a) in entries.iter().enumerate() {
        for b in entries.iter().skip(i + 1) {
            let apart = a.x + a.width <= b.x || b.x + b.width <= a.x || a.y + a.height <= b.y || b.y + b.height <= a.y;
            assert!(apart);
        }
    }
}

#[test]
fn try_gen_atlas_refuses_cell_that_outgrows_u32() {
    // the cell is u32::MAX wide: no doubled side below 2^32 holds it
    let t = TextureData::new("p".to_string(), Texture::new(1, 1), u32::MAX - 1);
    assert!(try_gen_atlas(vec![t], true, &mut Vec::new()).is_none());
}

#[test]
fn try_gen_atlas_refuses_atlas_too_large_for_memory() {
    // the doubled side is 2^31, and an RGBA image of that side has 2^64 bytes
    let t = TextureData::new("p".to_string(), Texture::new(1, 1), (1u32 << 31) - 1);
    assert!(try_gen_atlas(vec![t], false, &mut Vec::new()).is_none());
}

#[test]
fn gen_atlas_transparent_pixels_stay_clear() {
    let mut px = vec![200u8; 4 * 9 * 9];
    // pixel (4, 4) is fully transparent
    let i = 4 * (4 * 9 + 4);
    px[i + 3] = 0;
    let t = TextureData::new("t".to_string(), Texture::from_raw(9, 9, px).unwrap(), 0);
    let (atlas, _key) = gen_atlas(vec![t], false, &mut Vec::new());
    assert_eq!(atlas.dimensions(), (9, 9));
    assert_eq!(pixel(&atlas, 4, 4), [0, 0, 0, 0]);
    assert_eq!(pixel(&atlas, 3, 4), [200, 200, 200, 200]);
}

#[test]
fn gen_atlas_order_free_for_distinct_areas() {
    let first = vec![pattern("a", 6, 3, 1, 1), pattern("b", 1, 5, 2, 0), pattern("c", 6, 1, 3, 1), pattern("d", 3, 5, 4, 1)];
    let second = vec![pattern("c", 6, 1, 3, 1), pattern("d", 3, 5, 4, 1), pattern("b", 1, 5, 2, 0), pattern("a", 6, 3, 1, 1)];
    let mut p1 = Vec::new();
    let mut p2 = Vec::new();
    let (atlas1, key1) = gen_atlas(first, true, &mut p1);
    let (atlas2, key2) = gen_atlas(second, true, &mut p2);
    assert_eq!(atlas1.dimensions(), atlas2.dimensions());
    assert_eq!(atlas1.pixels(), atlas2.pixels());
    for n in ["a", "b", "c", "d"] {
        assert_eq!(get(&key1, n), get(&key2, n));
    }
    assert_eq!(p1, p2);
}

#[test]
fn atlas_side_is_locally_smallest() {
    let (atlas, _) = gen_atlas(vec![pattern("small", 1, 1, 2, 0), pattern("big", 8, 8, 3, 0)], false, &mut Vec::new());
    assert_eq!(atlas.dimensions(), (9, 9));
    // one side less leaves a texture unplaced
    let mut images = vec![pattern("big", 8, 8, 3, 0), pattern("small", 1, 1, 2, 0)];
    let mut key = AtlasKey::new();
    let mut regions = vec![Region::new(0, 0, 8, 8)];
    let mut tex = Texture::new(8, 8);
    recursive_pack(&mut images, &mut key, &mut regions, &mut tex, false);
    assert_eq!(images.len(), 1);
    assert_eq!(images[0].name, "small");
}

#[test]
fn gen_atlas_clips_texture_larger_than_its_cell() {
    let mut t = pattern("a", 4, 4, 5, 0);
    t.w = 2;
    t.h = 2;
    let (atlas, key) = gen_atlas(vec![t], false, &mut Vec::new());
    assert_eq!(atlas.dimensions(), (2, 2));
    assert_eq!(get(&key, "a"), Some(AtlasEntry::new(0, 0, 4, 4, false)));
    for y in 0..2 {
        for x in 0..2 {
            assert_eq!(pixel(&atlas, x, y), [x as u8, y as u8, 5, 255]);
        }
    }
}
