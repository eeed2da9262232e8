use raytrace::ppm::{make_comment, ppm_header, ppm_image_string, ppm_pixel};
use raytrace::vec3::Vec3;

#[test]
fn ppm_header_text() {
    assert_eq!(ppm_header(3, 2), "P3\n3 2\n255\n");
    assert_eq!(ppm_header(1920, 1080), "P3\n1920 1080\n255\n");
    assert_eq!(ppm_header(0, 10), "P3\n0 10\n255\n");
    assert_eq!(ppm_header(u32::MAX, 7), "P3\n4294967295 7\n255\n");
}

#[test]
fn ppm_pixel_line() {
    assert_eq!(ppm_pixel(&Vec3::new(255, 0, 17)), "255 0 17\n");
    assert_eq!(ppm_pixel(&Vec3::new(0, 0, 0)), "0 0 0\n");
}

#[test]
fn make_comment_prefixes_every_line() {
    assert_eq!(make_comment(String::from("hello")), "# hello");
    assert_eq!(make_comment(String::from("a\nb\nc")), "# a\n# b\n# c");
    assert_eq!(make_comment(String::new()), "# ");
    assert_eq!(make_comment(String::from("end\n")), "# end\n# ");
    assert_eq!(make_comment(String::from("äöü\n€")), "# äöü\n# €");
}

#[test]
fn ppm_image_string_whole_image() {
    let pixels = vec![Vec3::new(255, 0, 0), Vec3::new(0, 255, 0)];
    let text = ppm_image_string(2, 1, &pixels, String::from("Width\t2\nHeight\t1"));
    assert_eq!(
        text,
        "P3\n2 1\n255\n# Width\t2\n# Height\t1\n255 0 0\n0 255 0\n"
    );
}

#[test]
fn ppm_image_string_no_pixels() {
    assert_eq!(ppm_image_string(0, 0, &[], String::new()), "P3\n0 0\n255\n# \n");
}
