//! The direction table, polar-point helpers, movement decisions and widget
//! identities, on concrete values.

use hexfov::fov::PolarPoint;
use hexfov::hex::{Dir6, V2};
use hexfov::walk::{flip_parity, side_step_dir, smart_step_dir, Side};
use hexfov::widget::{Image, WidgetId};

#[test]
fn direction_table_round_trip() {
    let dirs = [
        Dir6::North,
        Dir6::Northeast,
        Dir6::Southeast,
        Dir6::South,
        Dir6::Southwest,
        Dir6::Northwest,
    ];
    for (i, d) in dirs.iter().enumerate() {
        assert_eq!(Dir6::from_int(i as i64), *d);
        assert_eq!(d.to_int(), i as i64);
    }
}

#[test]
fn direction_vectors() {
    assert_eq!(Dir6::North.to_v2(), V2(-1, -1));
    assert_eq!(Dir6::Northeast.to_v2(), V2(0, -1));
    assert_eq!(Dir6::Southeast.to_v2(), V2(1, 0));
    assert_eq!(Dir6::South.to_v2(), V2(1, 1));
    assert_eq!(Dir6::Southwest.to_v2(), V2(0, 1));
    assert_eq!(Dir6::Northwest.to_v2(), V2(-1, 0));
}

#[test]
fn from_int_wraps_both_ways() {
    assert_eq!(Dir6::from_int(6), Dir6::North);
    assert_eq!(Dir6::from_int(7), Dir6::Northeast);
    assert_eq!(Dir6::from_int(-1), Dir6::Northwest);
    assert_eq!(Dir6::from_int(-6), Dir6::North);
    assert_eq!(Dir6::from_int(-7), Dir6::Northwest);
}

#[test]
fn rotation() {
    assert_eq!(Dir6::North.rotate(1), Dir6::Northeast);
    assert_eq!(Dir6::North.rotate(-1), Dir6::Northwest);
    assert_eq!(Dir6::South.rotate(3), Dir6::North);
    assert_eq!(Dir6::Southwest.rotate(0), Dir6::Southwest);
}

#[test]
fn polar_points_walk_the_ring() {
    // Angle 0 on the radius-1 ring is the North neighbour.
    let p = PolarPoint::new(0, 1);
    assert_eq!(p.to_v2(), V2(-1, -1));
    // Stepping along the ring visits the neighbours in table order.
    assert_eq!(p.next().to_v2(), V2(0, -1));
    assert_eq!(p.next().next().to_v2(), V2(1, 0));
    // The full circle wraps around.
    assert_eq!(PolarPoint::new(12, 1).to_v2(), V2(-1, -1));
}

#[test]
fn polar_point_projection() {
    // Angle 0 projects outward to angle 0: straight North along the spoke.
    let p = PolarPoint::new(0, 1).further();
    assert_eq!(p.radius(), 2);
    assert_eq!(p.to_v2(), V2(-2, -2));
}

#[test]
fn is_below_stops_at_the_boundary() {
    let begin = PolarPoint::new(0, 1);
    let end = PolarPoint::new(12, 1);
    assert!(begin.is_below(end));
    // Six steps later the sweep has wrapped past the seam cell and stops.
    let mut p = begin;
    for _ in 0..7 {
        p = p.next();
    }
    assert!(!p.is_below(end));
}

#[test]
fn side_point_on_the_right_rim() {
    // From the Northeast neighbour the ring continues to the Southeast one,
    // a (+1, +1) step: the corner between them lies outside the ring.
    let p = PolarPoint::new(2, 1);
    assert_eq!(p.to_v2(), V2(0, -1));
    assert_eq!(p.next().to_v2(), V2(1, 0));
    assert_eq!(p.side_point(), Some(V2(1, -1)));
}

#[test]
fn side_point_absent_on_flat_steps() {
    // From North to Northeast the step is (+1, 0): no corner to light.
    let p = PolarPoint::new(0, 1);
    assert_eq!(p.side_point(), None);
}

#[test]
fn smart_step_slides_along_walls() {
    // Way ahead open: keep going.
    assert_eq!(smart_step_dir(Dir6::North, true, true, true), Dir6::North);
    assert_eq!(smart_step_dir(Dir6::North, false, true, false), Dir6::North);
    // Blocked ahead, open to the left: veer left.
    assert_eq!(smart_step_dir(Dir6::North, true, false, true), Dir6::Northwest);
    // Blocked ahead and left, open to the right: veer right.
    assert_eq!(smart_step_dir(Dir6::North, false, false, true), Dir6::Northeast);
    // Boxed in: keep the heading (and bump into the wall).
    assert_eq!(smart_step_dir(Dir6::South, false, false, false), Dir6::South);
}

#[test]
fn side_steps_zigzag() {
    assert_eq!(side_step_dir(Side::West, true), Dir6::Southwest);
    assert_eq!(side_step_dir(Side::West, false), Dir6::Northwest);
    assert_eq!(side_step_dir(Side::East, true), Dir6::Southeast);
    assert_eq!(side_step_dir(Side::East, false), Dir6::Northeast);
    assert!(flip_parity(2, 4));
    assert!(!flip_parity(2, 5));
    assert!(flip_parity(-3, 1));
    assert!(!flip_parity(-3, 0));
}

#[test]
fn widget_ids() {
    let w = WidgetId::new("ui/inventory", 12, 40);
    assert_eq!(w.filename, "ui/inventory");
    assert_eq!(w.line, 12);
    assert_eq!(w.column, 40);
    let d = WidgetId::dummy();
    assert_eq!(d.filename, "n/a");
    assert_eq!(d.line, 666666);
    assert_eq!(d.column, 666666);
    assert_eq!(Image::default(), Image(0));
}
