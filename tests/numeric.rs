use one_weekend_raytracer::checker::checker_is_even;
use one_weekend_raytracer::integrator::next_depth;
use one_weekend_raytracer::order_key::total_order_key;

#[test]
fn key_order_matches_total_order() {
    let values: Vec<f32> =
        vec![f32::NEG_INFINITY, -1e30, -2.5, -1.0, -1e-30, -0.0, 0.0, 1e-30, 0.5, 1.0, 7.25, 1e30, f32::INFINITY];
    for a in &values {
        for b in &values {
            let by_key = total_order_key(a.to_bits()).cmp(&total_order_key(b.to_bits()));
            assert_eq!(by_key, a.total_cmp(b), "{a} vs {b}");
        }
    }
}

#[test]
fn key_of_zero_and_negative_zero() {
    assert_eq!(total_order_key(0), 0x8000_0000);
    assert_eq!(total_order_key(0x8000_0000), 0x7FFF_FFFF);
    assert_eq!(total_order_key(1.0f32.to_bits()), 0xBF80_0000);
}

#[test]
fn depth_zero_carries_no_light() {
    assert_eq!(next_depth(0), None);
}

#[test]
fn each_bounce_spends_one_level() {
    assert_eq!(next_depth(1), Some(0));
    assert_eq!(next_depth(50), Some(49));
    assert_eq!(next_depth(u16::MAX), Some(u16::MAX - 1));
}

#[test]
fn checker_origin_cell_is_even() {
    assert!(checker_is_even(0, 0, 0));
}

#[test]
fn checker_neighbours_alternate() {
    assert!(!checker_is_even(1, 0, 0));
    assert!(!checker_is_even(0, -1, 0));
    assert!(checker_is_even(1, 1, 0));
    assert!(!checker_is_even(-1, -1, -1));
    assert!(checker_is_even(-3, 2, 1));
}

#[test]
fn checker_sum_does_not_overflow() {
    assert!(!checker_is_even(i32::MAX, i32::MAX, i32::MAX));
    assert!(checker_is_even(i32::MIN, i32::MIN, i32::MIN));
    assert!(checker_is_even(i32::MAX, i32::MAX, 0));
}

use one_weekend_raytracer::prism::prism_faces;

fn cross(a: [i32; 3], b: [i32; 3]) -> [i32; 3] {
    [a[1] * b[2] - a[2] * b[1], a[2] * b[0] - a[0] * b[2], a[0] * b[1] - a[1] * b[0]]
}

fn edge(axis: usize, negative: bool) -> [i32; 3] {
    let mut e = [0; 3];
    e[axis] = if negative { -1 } else { 1 };
    e
}

#[test]
fn prism_face_table() {
    let faces = prism_faces();
    let table: Vec<([bool; 3], usize, bool, usize, bool)> =
        faces.iter().map(|f| (f.corner, f.u_axis, f.u_negative, f.v_axis, f.v_negative)).collect();
    assert_eq!(
        table,
        vec![
            ([false, false, true], 0, false, 1, false),
            ([true, false, true], 2, true, 1, false),
            ([true, false, false], 0, true, 1, false),
            ([false, false, false], 2, false, 1, false),
            ([false, true, true], 0, false, 2, true),
            ([false, false, false], 0, false, 2, false),
        ]
    );
}

#[test]
fn prism_normals_point_outward() {
    // on the unit cube, the face centre minus the cube centre has the normal's direction
    for f in prism_faces() {
        let n = cross(edge(f.u_axis, f.u_negative), edge(f.v_axis, f.v_negative));
        let mut centre = [0i32; 3];
        for i in 0..3 {
            let start = if f.corner[i] { 2 } else { 0 };
            centre[i] = start + edge(f.u_axis, f.u_negative)[i] + edge(f.v_axis, f.v_negative)[i];
        }
        let outward: i32 = (0..3).map(|i| n[i] * (centre[i] - 1)).sum();
        assert!(outward > 0);
        // the face stays on the box
        for i in 0..3 {
            assert!((0..=2).contains(&centre[i]));
        }
    }
}
