use atlas_packer::image_extract::TextureData;
use atlas_packer::sort::sort_by_area;
use atlas_packer::texture::Texture;

fn tex(name: &str, w: u32, h: u32) -> TextureData {
    TextureData::new(name.to_string(), Texture::new(w, h), 0)
}

#[test]
fn sort_descending_area_stable() {
    let mut v = vec![tex("a", 1, 1), tex("b", 2, 3), tex("c", 3, 2), tex("d", 4, 4), tex("e", 1, 6)];
    sort_by_area(&mut v);
    let names: Vec<&str> = v.iter().map(|t| t.name.as_str()).collect();
    assert_eq!(names, vec!["d", "b", "c", "e", "a"]);
}

#[test]
fn sort_uses_image_area_not_cell() {
    let mut v = vec![TextureData::new("p".to_string(), Texture::new(1, 1), 9), tex("q", 2, 2)];
    sort_by_area(&mut v);
    assert_eq!(v[0].name, "q");
    assert_eq!(v[1].name, "p");
}

#[test]
fn sort_empty_and_single() {
    let mut v: Vec<TextureData> = vec![];
    sort_by_area(&mut v);
    assert!(v.is_empty());
    let mut w = vec![tex("z", 3, 3)];
    sort_by_area(&mut w);
    assert_eq!(w[0].name, "z");
}
