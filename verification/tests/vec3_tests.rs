use raytrace::vec3::Vec3;

#[test]
fn vec3_new_and_getters() {
    let v = Vec3::<i32>::new(1, -2, 3);
    assert_eq!((v.x(), v.y(), v.z()), (1, -2, 3));
    assert_eq!((v.r(), v.g(), v.b()), (1, -2, 3));
    assert_eq!((v.component(0), v.component(1), v.component(2)), (1, -2, 3));
}

#[test]
fn vec3_dot_and_length_squared() {
    let a = Vec3::<i32>::new(1, 2, 3);
    let b = Vec3::<i32>::new(4, 5, 6);
    assert_eq!(a.dot(&b), 32);
    assert_eq!(b.dot(&a), 32);
    assert_eq!(a.length_squared(), 14);
    assert_eq!(a.length_squared(), a.dot(&a));
}

#[test]
fn vec3_cross() {
    let a = Vec3::<i32>::new(1, 2, 3);
    let b = Vec3::<i32>::new(4, 5, 6);
    let c = a.cross(&b);
    assert_eq!(c, Vec3::new(-3, 6, -3));
    assert_eq!(b.cross(&a), c.negate());
    assert_eq!(a.dot(&c), 0);
    assert_eq!(b.dot(&c), 0);
    let x = Vec3::<i64>::new(1, 0, 0);
    let y = Vec3::<i64>::new(0, 1, 0);
    assert_eq!(x.cross(&y), Vec3::new(0, 0, 1));
}

#[test]
fn vec3_lerp() {
    let a = Vec3::<i32>::new(0, 10, -4);
    let b = Vec3::<i32>::new(6, 20, 4);
    assert_eq!(a.lerp(&b, 0), a);
    assert_eq!(a.lerp(&b, 1), b);
    assert_eq!(a.lerp(&b, 2), Vec3::new(12, 30, 12));
    let p = Vec3::<u8>::new(10, 20, 30);
    let q = Vec3::<u8>::new(20, 40, 60);
    assert_eq!(p.lerp(&q, 1), q);
}

#[test]
fn vec3_abs() {
    let v = Vec3::<i32>::new(-5, 0, 7);
    assert_eq!(v.abs(), Vec3::new(5, 0, 7));
    assert_eq!(v.abs().abs(), v.abs());
    assert_eq!(v.negate().abs(), v.abs());
    let u = Vec3::<u32>::new(5, 0, 7);
    assert_eq!(u.abs(), u);
}

#[test]
fn vec3_componentwise_ops() {
    let a = Vec3::<i32>::new(7, -7, 9);
    let b = Vec3::<i32>::new(2, 2, -4);
    assert_eq!(a.plus(&b), Vec3::new(9, -5, 5));
    assert_eq!(a.minus(&b), Vec3::new(5, -9, 13));
    assert_eq!(a.plus(&b).minus(&b), a);
    assert_eq!(a.times(&b), Vec3::new(14, -14, -36));
    assert_eq!(a.divide(&b), Vec3::new(3, -3, -2));
    assert_eq!(a.plus_scalar(1), Vec3::new(8, -6, 10));
    assert_eq!(a.minus_scalar(1), Vec3::new(6, -8, 8));
    assert_eq!(a.times_scalar(3), Vec3::new(21, -21, 27));
    assert_eq!(a.divide_scalar(-2), Vec3::new(-3, 3, -4));
    assert_eq!(a.negate(), Vec3::new(-7, 7, -9));
    assert_eq!(a.negate().negate(), a);
    let mut c = a;
    c.plus_assign(&b);
    assert_eq!(c, Vec3::new(9, -5, 5));
}

#[test]
fn vec3_division_rounds_toward_zero() {
    let a = Vec3::<i64>::new(-7, 7, -8);
    assert_eq!(a.divide_scalar(2), Vec3::new(-3, 3, -4));
    let p = Vec3::<u8>::new(255, 7, 0);
    assert_eq!(p.divide_scalar(2), Vec3::new(127, 3, 0));
}

#[test]
fn vec3_default_is_zero() {
    let z: Vec3<u64> = Vec3::default();
    assert_eq!(z, Vec3::new(0, 0, 0));
    let w: Vec3<i32> = Vec3::default();
    assert_eq!(w, Vec3::new(0, 0, 0));
}

#[test]
fn vec3_pixel_bytes() {
    let p = Vec3::<u8>::new(255, 128, 0);
    assert_eq!(p.plus(&Vec3::new(0, 127, 255)), Vec3::new(255, 255, 255));
    assert_eq!(p.dot(&Vec3::new(0, 1, 0)), 128);
}
