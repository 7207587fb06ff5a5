use raytracer::hitable::{HitRecord, Hitable, HitableList};
use raytracer::ray::Ray;
use std::cell::RefCell;

type Point = [f64; 3];

fn dot(a: Point, b: Point) -> f64 {
    a[0] * b[0] + a[1] * b[1] + a[2] * b[2]
}

struct Ball {
    center: Point,
    radius: f64,
    material: u8,
}

impl Hitable<f64, Point, u8> for Ball {
    fn hit(&self, ray: &Ray<Point>, t_min: f64, t_max: f64) -> Result<HitRecord<f64, Point, u8>, ()> {
        let o = *ray.origin();
        let d = *ray.direction();
        let oc = [o[0] - self.center[0], o[1] - self.center[1], o[2] - self.center[2]];
        let a = dot(d, d);
        let b = 2.0 * dot(oc, d);
        let c = dot(oc, oc) - self.radius * self.radius;
        let discriminant = b * b - 4.0 * a * c;
        if discriminant > 0.0 {
            let t = (-b - discriminant.sqrt()) / (2.0 * a);
            if t < t_max && t > t_min {
                let p = [o[0] + t * d[0], o[1] + t * d[1], o[2] + t * d[2]];
                let normal = [
                    (p[0] - self.center[0]) / self.radius,
                    (p[1] - self.center[1]) / self.radius,
                    (p[2] - self.center[2]) / self.radius,
                ];
                return Ok(HitRecord::new(t, p, normal, self.material));
            }
        }
        Err(())
    }
}

/// Meets every ray at a fixed parameter, and notes the bounds it was asked with.
struct Pane<'a> {
    at: f64,
    material: u8,
    asked: &'a RefCell<Vec<(f64, f64)>>,
}

impl<'a> Hitable<f64, Point, u8> for Pane<'a> {
    fn hit(&self, ray: &Ray<Point>, t_min: f64, t_max: f64) -> Result<HitRecord<f64, Point, u8>, ()> {
        self.asked.borrow_mut().push((t_min, t_max));
        if t_min < self.at && self.at < t_max {
            Ok(HitRecord::new(self.at, *ray.origin(), *ray.direction(), self.material))
        } else {
            Err(())
        }
    }
}

fn along_z() -> Ray<Point> {
    Ray::new([0.0, 0.0, 0.0], [0.0, 0.0, -1.0])
}

#[test]
fn hit_record_new_keeps_its_fields() {
    let record = HitRecord::new(2.5_f64, [1.0, 2.0, 3.0], [0.0, 1.0, 0.0], 7_u8);
    assert_eq!(record.t, 2.5);
    assert_eq!(record.p, [1.0, 2.0, 3.0]);
    assert_eq!(record.normal, [0.0, 1.0, 0.0]);
    assert_eq!(record.material, 7);
}

#[test]
fn hit_record_clone_copies_every_field() {
    let record = HitRecord::new(2.5_f64, [1.0, 2.0, 3.0], [0.0, 1.0, 0.0], 7_u8);
    let copy = record.clone();
    assert_eq!(copy.t, 2.5);
    assert_eq!(copy.p, [1.0, 2.0, 3.0]);
    assert_eq!(copy.normal, [0.0, 1.0, 0.0]);
    assert_eq!(copy.material, 7);
}

#[test]
fn hit_record_clone_into_overwrites_every_field() {
    let source = HitRecord::new(2.5_f64, [1.0, 2.0, 3.0], [0.0, 1.0, 0.0], 7_u8);
    let mut target = HitRecord::new(0.0_f64, [0.0, 0.0, 0.0], [0.0, 0.0, 0.0], 0_u8);
    target.clone_into(&source);
    assert_eq!(target.t, 2.5);
    assert_eq!(target.p, [1.0, 2.0, 3.0]);
    assert_eq!(target.normal, [0.0, 1.0, 0.0]);
    assert_eq!(target.material, 7);
    assert_eq!(source.t, 2.5);
}

#[test]
fn list_new_keeps_the_items_in_order() {
    let list = HitableList::new(vec![3_u8, 1, 2]);
    assert_eq!(list.list, vec![3, 1, 2]);
}

#[test]
fn empty_list_misses() {
    let world: HitableList<Ball> = HitableList::new(Vec::new());
    assert!(world.hit(&along_z(), 0.001, f64::MAX).is_err());
}

#[test]
fn list_reports_the_closest_ball_when_the_farther_one_is_listed_first() {
    let world = HitableList::new(vec![
        Ball { center: [0.0, 0.0, -10.0], radius: 1.0, material: 1 },
        Ball { center: [0.0, 0.0, -4.0], radius: 1.0, material: 2 },
    ]);
    let record = world.hit(&along_z(), 0.001, f64::MAX).unwrap();
    assert_eq!(record.t, 3.0);
    assert_eq!(record.material, 2);
    assert_eq!(record.p, [0.0, 0.0, -3.0]);
    assert_eq!(record.normal, [0.0, 0.0, 1.0]);
}

#[test]
fn list_reports_the_closest_ball_when_the_nearer_one_is_listed_first() {
    let world = HitableList::new(vec![
        Ball { center: [0.0, 0.0, -4.0], radius: 1.0, material: 2 },
        Ball { center: [0.0, 0.0, -10.0], radius: 1.0, material: 1 },
    ]);
    let record = world.hit(&along_z(), 0.001, f64::MAX).unwrap();
    assert_eq!(record.t, 3.0);
    assert_eq!(record.material, 2);
}

#[test]
fn list_misses_when_every_ball_is_out_of_range() {
    let world = HitableList::new(vec![
        Ball { center: [0.0, 0.0, -10.0], radius: 1.0, material: 1 },
        Ball { center: [0.0, 0.0, -4.0], radius: 1.0, material: 2 },
        Ball { center: [5.0, 0.0, -4.0], radius: 1.0, material: 3 },
    ]);
    assert!(world.hit(&along_z(), 0.001, 2.5).is_err());
    assert!(world.hit(&along_z(), 9.5, f64::MAX).is_err());
}

#[test]
fn list_skips_what_lies_before_t_min() {
    let world = HitableList::new(vec![
        Ball { center: [0.0, 0.0, -4.0], radius: 1.0, material: 2 },
        Ball { center: [0.0, 0.0, -10.0], radius: 1.0, material: 1 },
    ]);
    let record = world.hit(&along_z(), 3.0, f64::MAX).unwrap();
    assert_eq!(record.t, 9.0);
    assert_eq!(record.material, 1);
}

#[test]
fn each_item_is_tested_against_the_closest_hit_so_far() {
    let asked = RefCell::new(Vec::new());
    let world = HitableList::new(vec![
        Pane { at: 8.0, material: 1, asked: &asked },
        Pane { at: 9.0, material: 2, asked: &asked },
        Pane { at: 5.0, material: 3, asked: &asked },
        Pane { at: 6.0, material: 4, asked: &asked },
    ]);
    let record = world.hit(&along_z(), 0.5, 100.0).unwrap();
    assert_eq!(record.t, 5.0);
    assert_eq!(record.material, 3);
    assert_eq!(*asked.borrow(), vec![(0.5, 100.0), (0.5, 8.0), (0.5, 8.0), (0.5, 5.0)]);
}

#[test]
fn of_two_items_at_the_same_parameter_the_first_answers() {
    let asked = RefCell::new(Vec::new());
    let world = HitableList::new(vec![
        Pane { at: 4.0, material: 1, asked: &asked },
        Pane { at: 4.0, material: 2, asked: &asked },
    ]);
    let record = world.hit(&along_z(), 0.001, f64::MAX).unwrap();
    assert_eq!(record.t, 4.0);
    assert_eq!(record.material, 1);
}

#[test]
fn a_list_of_lists_reports_the_closest_hit() {
    let near = HitableList::new(vec![Ball { center: [0.0, 0.0, -4.0], radius: 1.0, material: 2 }]);
    let far = HitableList::new(vec![
        Ball { center: [0.0, 0.0, -30.0], radius: 2.0, material: 5 },
        Ball { center: [0.0, 0.0, -10.0], radius: 1.0, material: 1 },
    ]);
    let world = HitableList::new(vec![far, near]);
    let record = world.hit(&along_z(), 0.001, f64::MAX).unwrap();
    assert_eq!(record.t, 3.0);
    assert_eq!(record.material, 2);
}
