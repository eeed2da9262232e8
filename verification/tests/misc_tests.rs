use raytrace::mesh::{gather_vertices, group_triangles};
use raytrace::passes::{bvh_debug_pass_name, default_pass_name, split_duration};
use raytrace::scene::{BounceShade, CoordinatePlane, MatBounceDebug, MatFaceDebug, MatNormalDebug, PostProcessSettings};
use raytrace::texture::Texture;
use raytrace::vec3::Vec3;

#[test]
fn coordinate_plane_normals() {
    assert_eq!(CoordinatePlane::XY.normal(), Vec3::new(0, 0, 1));
    assert_eq!(CoordinatePlane::XZ.normal(), Vec3::new(0, 1, 0));
    assert_eq!(CoordinatePlane::YZ.normal(), Vec3::new(1, 0, 0));
}

#[test]
fn bounce_shades() {
    let m = MatBounceDebug::new(4);
    assert_eq!(m.bounce_shade(0), BounceShade::Graded { bounces: 0, steps: 3 });
    assert_eq!(m.bounce_shade(3), BounceShade::Graded { bounces: 3, steps: 3 });
    assert_eq!(m.bounce_shade(4), BounceShade::LimitReached);
    assert_eq!(m.bounce_shade(100), BounceShade::LimitReached);
    assert_eq!(MatBounceDebug::new(0).bounce_shade(0), BounceShade::LimitReached);
    assert_eq!(MatBounceDebug::random_instance().limit, 32);
}

#[test]
fn unit_structs() {
    assert_eq!(MatNormalDebug::default(), MatNormalDebug {});
    assert_eq!(MatFaceDebug::default(), MatFaceDebug {});
    assert_eq!(PostProcessSettings::default(), PostProcessSettings {});
}

#[test]
fn pass_names() {
    assert_eq!(default_pass_name(0), "color");
    assert_eq!(default_pass_name(1), "albedo");
    assert_eq!(default_pass_name(2), "normal");
    assert_eq!(bvh_debug_pass_name(0), "num_aabb_intersects");
    assert_eq!(bvh_debug_pass_name(1), "num_aabb_checks");
    assert_eq!(bvh_debug_pass_name(2), "num_primitive_checks");
}

#[test]
fn durations() {
    assert_eq!(split_duration(0), (0, 0, 0));
    assert_eq!(split_duration(59), (0, 0, 59));
    assert_eq!(split_duration(3725), (1, 2, 5));
    assert_eq!(split_duration(86399), (23, 59, 59));
    let (h, m, s) = split_duration(u32::MAX);
    assert_eq!(h * 3600 + m * 60 + s, u32::MAX);
}

#[test]
fn gather_vertices_by_index() {
    let values = vec![0.0f32, 0.5, 1.0, 10.0, 11.0, 12.0, -1.0, -2.0, -3.0];
    let v = gather_vertices(&values, &vec![2, 0, 2, 1]);
    assert_eq!(v, vec![(-1.0, -2.0, -3.0), (0.0, 0.5, 1.0), (-1.0, -2.0, -3.0), (10.0, 11.0, 12.0)]);
}

#[test]
fn group_into_triangles() {
    let positions = vec![1, 2, 3, 4, 5, 6];
    let normals = vec![10, 20, 30, 40, 50, 60];
    let t = group_triangles(&positions, &normals);
    assert_eq!(t, vec![([1, 2, 3], [10, 20, 30]), ([4, 5, 6], [40, 50, 60])]);
    assert!(group_triangles::<u8>(&vec![], &vec![]).is_empty());
}

#[test]
fn texture_texels() {
    let tex = Texture::from_raw(3, 2, vec![1, 2, 3, 4, 5, 6]);
    assert_eq!((tex.width, tex.height), (3, 2));
    assert_eq!(tex.texel(0, 0), 1);
    assert_eq!(tex.texel(2, 0), 3);
    assert_eq!(tex.texel(1, 1), 5);
    assert_eq!(tex.texel(2, 1), 6);
}
