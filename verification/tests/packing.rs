use atlas_packer::atlas_key::{AtlasEntry, AtlasKey};
use atlas_packer::geometry::Region;
use atlas_packer::image_extract::TextureData;
use atlas_packer::packing::recursive_pack;
use atlas_packer::texture::Texture;

fn tex(name: &str, w: u32, h: u32) -> TextureData {
    TextureData::new(name.to_string(), Texture::from_raw(w, h, vec![255; (4 * w * h) as usize]).unwrap(), 0)
}

fn get(k: &AtlasKey, n: &str) -> Option<AtlasEntry> {
    k.get(&n.to_string())
}

#[test]
fn recursive_pack_two_squares() {
    let mut images = vec![tex("a", 2, 2), tex("b", 2, 2)];
    let mut key = AtlasKey::new();
    let mut regions = vec![Region::new(0, 0, 4, 4)];
    let mut atlas = Texture::new(4, 4);
    recursive_pack(&mut images, &mut key, &mut regions, &mut atlas, false);
    assert!(images.is_empty());
    assert!(regions.is_empty());
    assert_eq!(get(&key, "a"), Some(AtlasEntry::new(0, 0, 2, 2, false)));
    assert_eq!(get(&key, "b"), Some(AtlasEntry::new(0, 2, 2, 2, false)));
    // the two squares are drawn on the left half, the right half stays clear
    for y in 0..4u32 {
        for x in 0..4u32 {
            let i = (4 * (y * 4 + x)) as usize;
            let expected = if x < 2 { 255 } else { 0 };
            assert_eq!(atlas.pixels()[i + 3], expected);
        }
    }
}

#[test]
fn recursive_pack_rotates_when_allowed() {
    let mut images = vec![tex("a", 3, 3), tex("b", 2, 2), tex("c", 5, 1)];
    let mut key = AtlasKey::new();
    let mut regions = vec![Region::new(0, 0, 5, 5)];
    let mut atlas = Texture::new(5, 5);
    recursive_pack(&mut images, &mut key, &mut regions, &mut atlas, true);
    assert!(images.is_empty());
    assert_eq!(get(&key, "a"), Some(AtlasEntry::new(0, 0, 3, 3, false)));
    assert_eq!(get(&key, "b"), Some(AtlasEntry::new(0, 3, 2, 2, false)));
    assert_eq!(get(&key, "c"), Some(AtlasEntry::new(3, 0, 1, 5, true)));
}

#[test]
fn recursive_pack_leaves_unfit_without_rotation() {
    let mut images = vec![tex("a", 3, 3), tex("b", 2, 2), tex("c", 5, 1)];
    let mut key = AtlasKey::new();
    let mut regions = vec![Region::new(0, 0, 5, 5)];
    let mut atlas = Texture::new(5, 5);
    recursive_pack(&mut images, &mut key, &mut regions, &mut atlas, false);
    assert_eq!(images.len(), 1);
    assert_eq!(images[0].name, "c");
    assert_eq!(get(&key, "c"), None);
    assert_eq!(get(&key, "b"), Some(AtlasEntry::new(0, 3, 2, 2, false)));
}

#[test]
fn recursive_pack_no_regions() {
    let mut images = vec![tex("a", 1, 1)];
    let mut key = AtlasKey::new();
    let mut regions: Vec<Region> = vec![];
    let mut atlas = Texture::new(1, 1);
    recursive_pack(&mut images, &mut key, &mut regions, &mut atlas, true);
    assert_eq!(images.len(), 1);
    assert_eq!(key.entries().len(), 0);
}

#[test]
fn recursive_pack_leftovers_keep_order() {
    let mut images = vec![tex("p", 5, 5), tex("a", 1, 1), tex("q", 6, 1), tex("r", 1, 7)];
    let mut key = AtlasKey::new();
    let mut regions = vec![Region::new(0, 0, 2, 2)];
    let mut atlas = Texture::new(2, 2);
    recursive_pack(&mut images, &mut key, &mut regions, &mut atlas, false);
    let names: Vec<&str> = images.iter().map(|t| t.name.as_str()).collect();
    assert_eq!(names, vec!["p", "q", "r"]);
    assert_eq!(get(&key, "a"), Some(AtlasEntry::new(0, 0, 1, 1, false)));
}
