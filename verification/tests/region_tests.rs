use raytrace::region::ImageRegion;

#[test]
fn region_new() {
    let r = ImageRegion::new(10, 20, 5, 7);
    assert_eq!(r.x, (10, 15));
    assert_eq!(r.y, (20, 27));
}

#[test]
fn region_whole_image() {
    let r = ImageRegion::whole_image(640, 480);
    assert_eq!(r.x, (0, 640));
    assert_eq!(r.y, (0, 480));
}

#[test]
fn region_pixel_coords_row_major() {
    let r = ImageRegion::new(2, 5, 3, 2);
    assert_eq!(
        r.pixel_coords(),
        vec![(2, 5), (3, 5), (4, 5), (2, 6), (3, 6), (4, 6)]
    );
    let empty = ImageRegion::new(4, 4, 0, 3);
    assert!(empty.pixel_coords().is_empty());
}
