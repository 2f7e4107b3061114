use atlas_packer::texture::Texture;

/// An opaque test image whose pixel (x, y) is [x, y, tag, 255].
fn pattern(w: u32, h: u32, tag: u8) -> Texture {
    let mut px = Vec::new();
    for y in 0..h {
        for x in 0..w {
            px.extend_from_slice(&[x as u8, y as u8, tag, 255]);
        }
    }
    Texture::from_raw(w, h, px).unwrap()
}

fn pixel(t: &Texture, x: u32, y: u32) -> [u8; 4] {
    let i = (4 * (y * t.width() + x)) as usize;
    let p = t.pixels();
    [p[i], p[i + 1], p[i + 2], p[i + 3]]
}

#[test]
fn texture_new_is_transparent() {
    let t = Texture::new(3, 2);
    assert_eq!(t.dimensions(), (3, 2));
    assert_eq!(t.pixels().len(), 24);
    assert!(t.pixels().iter().all(|b| *b == 0));
}

#[test]
fn texture_new_empty() {
    let t = Texture::new(0, 5);
    assert_eq!(t.pixels().len(), 0);
}

#[test]
fn texture_from_raw_checks_length() {
    assert!(Texture::from_raw(2, 2, vec![0; 16]).is_some());
    assert!(Texture::from_raw(2, 2, vec![0; 15]).is_none());
    assert!(Texture::from_raw(2, 2, vec![0; 17]).is_none());
    assert!(Texture::from_raw(0, 0, vec![]).is_some());
    assert!(Texture::from_raw(u32::MAX, u32::MAX, vec![]).is_none());
}

#[test]
fn texture_into_raw_gives_buffer() {
    let t = Texture::from_raw(1, 1, vec![1, 2, 3, 4]).unwrap();
    assert_eq!(t.width(), 1);
    assert_eq!(t.height(), 1);
    assert_eq!(t.into_raw(), vec![1, 2, 3, 4]);
}

#[test]
fn texture_rotate90_clockwise() {
    // 3 wide, 2 high; turned it is 2 wide, 3 high, and its pixel (ox, oy)
    // is the source pixel (oy, 1 - ox)
    let t = pattern(3, 2, 9);
    let r = t.rotate90();
    assert_eq!(r.dimensions(), (2, 3));
    for oy in 0..3 {
        for ox in 0..2 {
            assert_eq!(pixel(&r, ox, oy), [oy as u8, (1 - ox) as u8, 9, 255]);
        }
    }
}

#[test]
fn texture_overlay_opaque_and_transparent() {
    let mut base = Texture::new(4, 3);
    let top = pattern(2, 2, 5);
    base.overlay(&top, 1, 1);
    assert_eq!(base.dimensions(), (4, 3));
    for y in 0..3 {
        for x in 0..4 {
            if (1..3).contains(&x) && (1..3).contains(&y) {
                assert_eq!(pixel(&base, x, y), [(x - 1) as u8, (y - 1) as u8, 5, 255]);
            } else {
                assert_eq!(pixel(&base, x, y), [0, 0, 0, 0]);
            }
        }
    }
    // a fully transparent top leaves the bottom as it was
    let clear = Texture::from_raw(4, 3, vec![7; 48]).unwrap();
    let mut clear_top = vec![7; 16];
    for i in 0..4 {
        clear_top[4 * i + 3] = 0;
    }
    let clear_top = Texture::from_raw(2, 2, clear_top).unwrap();
    let mut b2 = clear;
    b2.overlay(&clear_top, 0, 0);
    assert!(b2.pixels().iter().all(|b| *b == 7));
}

#[test]
fn texture_overlay_clips_at_edge() {
    let mut base = Texture::new(2, 2);
    let top = pattern(2, 2, 1);
    base.overlay(&top, 1, 1);
    assert_eq!(pixel(&base, 1, 1), [0, 0, 1, 255]);
    assert_eq!(pixel(&base, 0, 0), [0, 0, 0, 0]);
    assert_eq!(base.pixels().len(), 16);
}

#[test]
fn texture_clone_is_equal() {
    let t = pattern(2, 3, 4);
    let c = t.clone();
    assert_eq!(c.dimensions(), t.dimensions());
    assert_eq!(c.pixels(), t.pixels());
}
