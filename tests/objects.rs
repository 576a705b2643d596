use rust_ray::objects::{nearest_root, HitableList};
use std::cell::RefCell;

/// A plane facing the ray at distance `d`, hit only strictly inside the window.
fn plane_hit(d: &(f64, char), lo: f64, hi: f64) -> Option<(f64, char)> {
    if d.0 > lo && d.0 < hi {
        Some((d.0, d.1))
    } else {
        None
    }
}

#[test]
fn new_list_keeps_primitives_in_order() {
    let list = HitableList::new(vec![3, 1, 2]);
    assert_eq!(list.list, vec![3, 1, 2]);
}

#[test]
fn empty_scene_has_no_hit() {
    let list: HitableList<(f64, char)> = HitableList::new(vec![]);
    assert_eq!(list.hit(0.001, f64::INFINITY, &plane_hit), None);
}

#[test]
fn closest_hit_wins_whatever_the_order() {
    let list = HitableList::new(vec![(5.0, 'a'), (2.0, 'b'), (9.0, 'c'), (3.0, 'd')]);
    assert_eq!(list.hit(0.001, f64::INFINITY, &plane_hit), Some((2.0, 'b')));
}

#[test]
fn hits_outside_window_are_ignored() {
    let list = HitableList::new(vec![(0.0005, 'a'), (7.0, 'b'), (12.0, 'c')]);
    assert_eq!(list.hit(0.001, 10.0, &plane_hit), Some((7.0, 'b')));
    assert_eq!(list.hit(0.001, 7.0, &plane_hit), None);
}

#[test]
fn exact_tie_keeps_earliest_primitive() {
    let list = HitableList::new(vec![(4.0, 'a'), (4.0, 'b')]);
    assert_eq!(list.hit(0.001, f64::INFINITY, &plane_hit), Some((4.0, 'a')));
}

#[test]
fn window_shrinks_to_each_hit() {
    let asked = RefCell::new(Vec::new());
    let list = HitableList::new(vec![(5.0, 'a'), (8.0, 'b'), (3.0, 'c')]);
    let r = list.hit(0.001, 100.0, &|p: &(f64, char), lo: f64, hi: f64| {
        asked.borrow_mut().push(hi);
        plane_hit(p, lo, hi)
    });
    assert_eq!(r, Some((3.0, 'c')));
    assert_eq!(*asked.borrow(), vec![100.0, 5.0, 5.0]);
}

/// Roots of a ray from the origin along -z against a sphere of radius `r`
/// centred at distance `d` on that axis.
fn axis_roots(d: f64, r: f64) -> (f64, f64) {
    let (a, b, c) = (1.0, -d, d * d - r * r);
    let disc: f64 = b * b - a * c;
    ((-b - disc.sqrt()) / a, (-b + disc.sqrt()) / a)
}

#[test]
fn sphere_on_axis_gives_nearer_root() {
    let (near, far) = axis_roots(5.0, 1.0);
    assert_eq!((near, far), (4.0, 6.0));
    assert_eq!(nearest_root(near, far, 0.001, f64::INFINITY), Some(4.0));
}

#[test]
fn root_on_window_start_is_rejected() {
    let (near, far) = axis_roots(5.0, 1.0);
    assert_eq!(nearest_root(near, far, 4.0, f64::INFINITY), Some(6.0));
    assert_eq!(nearest_root(near, far, 6.0, f64::INFINITY), None);
}

#[test]
fn root_on_window_end_is_rejected() {
    let (near, far) = axis_roots(5.0, 1.0);
    assert_eq!(nearest_root(near, far, 0.001, 4.0), None);
    assert_eq!(nearest_root(near, far, 0.001, 6.0), Some(4.0));
}

#[test]
fn ray_from_inside_sphere_takes_farther_root() {
    let (near, far) = axis_roots(0.0, 2.0);
    assert_eq!((near, far), (-2.0, 2.0));
    assert_eq!(nearest_root(near, far, 0.001, f64::INFINITY), Some(2.0));
}

#[test]
fn nearest_root_on_integers() {
    assert_eq!(nearest_root(3i64, 7, 0, 10), Some(3));
    assert_eq!(nearest_root(0i64, 7, 0, 10), Some(7));
    assert_eq!(nearest_root(-1i64, 10, 0, 10), None);
}
