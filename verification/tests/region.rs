use atlas_packer::geometry::Region;

#[test]
fn region_new_sets_corner() {
    let r = Region::new(3, 4, 10, 20);
    assert_eq!((r.x, r.y, r.w, r.h, r.bx, r.by), (3, 4, 10, 20, 13, 24));
}

#[test]
fn region_from_coords_sets_size() {
    let r = Region::from_coords(3, 4, 13, 24);
    assert_eq!((r.x, r.y, r.w, r.h, r.bx, r.by), (3, 4, 10, 20, 13, 24));
}

#[test]
fn region_from_coords_empty() {
    let r = Region::from_coords(5, 5, 5, 5);
    assert_eq!((r.w, r.h), (0, 0));
    assert_eq!(r.area(), 0);
}

#[test]
fn region_area_exceeds_u32() {
    let r = Region::new(0, 0, u32::MAX, u32::MAX);
    assert_eq!(r.area(), (u32::MAX as u64) * (u32::MAX as u64));
    assert_eq!(Region::new(1, 1, 6, 7).area(), 42);
}

#[test]
fn region_can_fit() {
    let r = Region::new(0, 0, 5, 3);
    assert!(r.can_fit(5, 3));
    assert!(r.can_fit(0, 0));
    assert!(!r.can_fit(6, 3));
    assert!(!r.can_fit(3, 5));
}
