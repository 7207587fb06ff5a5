use cgmath::Vector3;
use raytracer::ray::Ray;

#[test]
fn ray_keeps_origin_and_direction() {
    let ray = Ray::new(Vector3::new(1.0_f64, 2.0, 3.0), Vector3::new(0.0_f64, -1.0, 0.5));
    assert_eq!(*ray.origin(), Vector3::new(1.0, 2.0, 3.0));
    assert_eq!(*ray.direction(), Vector3::new(0.0, -1.0, 0.5));
}

#[test]
fn ray_fields_are_the_arguments_in_order() {
    let ray = Ray::new(7_i32, 9_i32);
    assert_eq!(ray.a, 7);
    assert_eq!(ray.b, 9);
    assert_eq!(*ray.origin(), 7);
    assert_eq!(*ray.direction(), 9);
}
