use voxel_terrain::bounds;

#[test]
fn new_keeps_its_arguments() {
    let b = bounds::T::new(1, -2, 3, -4);
    assert_eq!(b.x, 1);
    assert_eq!(b.y, -2);
    assert_eq!(b.z, 3);
    assert_eq!(b.lg_size, -4);
    assert_eq!(b, bounds::T { x: 1, y: -2, z: 3, lg_size: -4 });
}

#[test]
fn octant_of_origin_cube_is_zero() {
    let b = bounds::T::new(0, 0, 0, 0);
    assert_eq!(b.octant_at(0), 0);
    assert_eq!(b.octant_at(5), 0);
}

#[test]
fn octant_orders_x_then_y_then_z() {
    assert_eq!(bounds::T::new(1, 0, 0, 0).octant_at(0), 4);
    assert_eq!(bounds::T::new(0, 1, 0, 0).octant_at(0), 2);
    assert_eq!(bounds::T::new(0, 0, 1, 0).octant_at(0), 1);
    assert_eq!(bounds::T::new(1, 1, 1, 0).octant_at(0), 7);
    assert_eq!(bounds::T::new(2, 1, 0, 0).octant_at(1), 4);
    assert_eq!(bounds::T::new(2, 1, 0, 0).octant_at(0), 2);
}

#[test]
fn octant_of_negative_coordinates() {
    let b = bounds::T::new(-1, -1, -1, 0);
    assert_eq!(b.octant_at(0), 7);
    assert_eq!(b.octant_at(31), 7);
    assert_eq!(b.octant_at(70000), 7);
    assert_eq!(bounds::T::new(-2, 0, -1, 3).octant_at(0), 1);
    assert_eq!(bounds::T::new(-2, 0, -1, 3).octant_at(1), 5);
}

#[test]
fn near_origin_needs_a_scale_within_the_half_width() {
    let b = bounds::T::new(0, 0, 0, 4);
    assert!(!b.is_near_origin(3));
    assert!(b.is_near_origin(4));
    assert!(b.is_near_origin(5));
}

#[test]
fn near_origin_bounds_the_coordinates() {
    // Half-width 2^3 at unit scale: coordinates -8 ..= 7.
    assert!(bounds::T::new(7, 0, 0, 0).is_near_origin(3));
    assert!(!bounds::T::new(8, 0, 0, 0).is_near_origin(3));
    assert!(bounds::T::new(-8, 0, 0, 0).is_near_origin(3));
    assert!(!bounds::T::new(-9, 0, 0, 0).is_near_origin(3));
    assert!(bounds::T::new(0, 7, -8, 0).is_near_origin(3));
    assert!(!bounds::T::new(0, 0, 8, 0).is_near_origin(3));
    // At the tree's own scale only the eight cubes around the origin.
    assert!(bounds::T::new(-1, 0, -1, 3).is_near_origin(3));
    assert!(!bounds::T::new(1, 0, 0, 3).is_near_origin(3));
    assert!(!bounds::T::new(-2, 0, 0, 3).is_near_origin(3));
}

#[test]
fn near_origin_with_small_cubes() {
    // Cubes of size 1/4 in a world of half-width 1: coordinates -4 ..= 3.
    assert!(bounds::T::new(3, -4, 0, -2).is_near_origin(0));
    assert!(!bounds::T::new(4, 0, 0, -2).is_near_origin(0));
    assert!(!bounds::T::new(0, -5, 0, -2).is_near_origin(0));
}

#[test]
fn near_origin_at_the_extremes() {
    let lowest = bounds::T::new(i32::MIN, i32::MIN, i32::MIN, i16::MIN);
    let highest = bounds::T::new(i32::MAX, i32::MAX, i32::MAX, i16::MAX);
    assert!(lowest.is_near_origin(i16::MIN as i32 + 31));
    assert!(!lowest.is_near_origin(i16::MIN as i32 + 30));
    assert!(highest.is_near_origin(i16::MAX as i32 + 31));
    assert!(!highest.is_near_origin(i16::MAX as i32 + 30));
    assert!(!highest.is_near_origin(i32::MIN));
    assert!(lowest.is_near_origin(i32::MAX));
}

#[test]
fn contains_itself() {
    let b = bounds::T::new(3, -7, 11, -2);
    assert!(b.contains(&b));
}

#[test]
fn contains_its_children_and_not_its_parent() {
    let parent = bounds::T::new(-1, 2, 0, 1);
    for dx in 0..2 {
        for dy in 0..2 {
            for dz in 0..2 {
                let child = bounds::T::new(-2 + dx, 4 + dy, dz, 0);
                assert!(parent.contains(&child));
                assert!(!child.contains(&parent));
            }
        }
    }
    assert!(!parent.contains(&bounds::T::new(0, 4, 0, 0)));
    assert!(!parent.contains(&bounds::T::new(-3, 4, 0, 0)));
    assert!(!parent.contains(&bounds::T::new(-2, 6, 0, 0)));
    assert!(!parent.contains(&bounds::T::new(-2, 4, 2, 0)));
}

#[test]
fn contains_across_many_levels() {
    let outer = bounds::T::new(-1, -1, -1, 31);
    assert!(outer.contains(&bounds::T::new(i32::MIN, -1, -5, 0)));
    assert!(!outer.contains(&bounds::T::new(0, -1, -5, 0)));
    let far = bounds::T::new(0, 0, 0, i16::MAX);
    assert!(far.contains(&bounds::T::new(i32::MAX, 0, 12, i16::MIN)));
    assert!(!far.contains(&bounds::T::new(-1, 0, 12, i16::MIN)));
}

#[test]
fn parent_halves_the_coordinates_toward_negative_infinity() {
    assert_eq!(bounds::T::new(5, -5, 0, 2).parent(), Some(bounds::T::new(2, -3, 0, 3)));
    assert_eq!(bounds::T::new(-1, 1, -2, -7).parent(), Some(bounds::T::new(-1, 0, -1, -6)));
    assert_eq!(
        bounds::T::new(i32::MAX, i32::MIN, 0, 0).parent(),
        Some(bounds::T::new(1_073_741_823, -1_073_741_824, 0, 1))
    );
}

#[test]
fn no_parent_at_the_coarsest_scale() {
    assert_eq!(bounds::T::new(0, 0, 0, i16::MAX).parent(), None);
    assert!(bounds::T::new(0, 0, 0, i16::MAX - 1).parent().is_some());
}

#[test]
fn child_doubles_the_coordinates_and_adds_the_octant() {
    let b = bounds::T::new(2, -3, 0, 3);
    assert_eq!(b.child(0), Some(bounds::T::new(4, -6, 0, 2)));
    assert_eq!(b.child(1), Some(bounds::T::new(4, -6, 1, 2)));
    assert_eq!(b.child(2), Some(bounds::T::new(4, -5, 0, 2)));
    assert_eq!(b.child(4), Some(bounds::T::new(5, -6, 0, 2)));
    assert_eq!(b.child(7), Some(bounds::T::new(5, -5, 1, 2)));
}

#[test]
fn child_and_parent_undo_each_other() {
    let b = bounds::T::new(-7, 3, 100, -2);
    for octant in 0..8 {
        let child = b.child(octant).unwrap();
        assert_eq!(child.parent(), Some(b));
        assert_eq!(child.octant_at(0), octant);
        assert!(b.contains(&child));
        assert!(b.is_adjacent(&child));
        assert!(child.is_adjacent(&b));
    }
    let parent = b.parent().unwrap();
    assert_eq!(parent.child(b.octant_at(0)), Some(b));
}

#[test]
fn no_child_beyond_the_finest_scale_or_the_coordinate_range() {
    assert_eq!(bounds::T::new(0, 0, 0, i16::MIN).child(0), None);
    assert_eq!(bounds::T::new(1_073_741_824, 0, 0, 0).child(0), None);
    assert_eq!(bounds::T::new(0, -1_073_741_825, 0, 0).child(7), None);
    assert_eq!(
        bounds::T::new(1_073_741_823, -1_073_741_824, 0, 0).child(4),
        Some(bounds::T::new(i32::MAX, i32::MIN, 0, -1))
    );
}

#[test]
fn adjacent_means_parent_and_child() {
    let b = bounds::T::new(4, 4, 4, 0);
    assert!(!b.is_adjacent(&b));
    assert!(b.is_adjacent(&bounds::T::new(2, 2, 2, 1)));
    assert!(!b.is_adjacent(&bounds::T::new(1, 1, 1, 2)));
    assert!(!b.is_adjacent(&bounds::T::new(3, 2, 2, 1)));
    assert!(!b.is_adjacent(&bounds::T::new(5, 4, 4, 0)));
    assert!(b.is_adjacent(&bounds::T::new(8, 9, 8, -1)));
    assert!(!b.is_adjacent(&bounds::T::new(10, 9, 8, -1)));
    assert!(!bounds::T::new(0, 0, 0, i16::MAX).is_adjacent(&bounds::T::new(0, 0, 0, i16::MIN)));
}
