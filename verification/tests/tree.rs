use voxel_terrain::bounds;
use voxel_terrain::tree;

#[test]
fn new_tree_holds_nothing() {
    let tree: tree::T<u32> = tree::T::new();
    assert_eq!(tree.get(&bounds::T::new(0, 0, 0, 0)), None);
    assert_eq!(tree.get(&bounds::T::new(-1, 5, 3, -2)), None);
    assert_eq!(tree.get(&bounds::T::new(100, 100, 100, 10)), None);
}

#[test]
fn get_after_get_or_create_finds_what_was_written() {
    let mut tree: tree::T<u32> = tree::T::new();
    let b = bounds::T::new(3, -4, 5, -1);
    *tree.get_or_create(&b) = Some(17);
    assert_eq!(tree.get(&b), Some(&17));
}

#[test]
fn get_or_create_of_a_new_slot_is_empty() {
    let mut tree: tree::T<u32> = tree::T::new();
    let b = bounds::T::new(3, -4, 5, -1);
    assert_eq!(*tree.get_or_create(&b), None);
}

#[test]
fn get_or_create_alone_stores_no_voxel() {
    let mut tree: tree::T<u32> = tree::T::new();
    let b = bounds::T::new(3, -4, 5, -1);
    let _ = tree.get_or_create(&b);
    assert_eq!(tree.get(&b), None);
}

#[test]
fn get_or_create_returns_the_stored_voxel() {
    let mut tree: tree::T<u32> = tree::T::new();
    let b = bounds::T::new(-7, 0, 2, 3);
    *tree.get_or_create(&b) = Some(1);
    assert_eq!(*tree.get_or_create(&b), Some(1));
    *tree.get_or_create(&b) = Some(2);
    assert_eq!(tree.get(&b), Some(&2));
}

#[test]
fn distinct_bounds_do_not_alias() {
    let mut tree: tree::T<i64> = tree::T::new();
    let mut all = Vec::new();
    for lg in -2i16..3 {
        for x in -3..3 {
            for y in -3..3 {
                for z in -3..3 {
                    all.push(bounds::T::new(x, y, z, lg));
                }
            }
        }
    }
    for (i, b) in all.iter().enumerate() {
        *tree.get_or_create(b) = Some(i as i64);
    }
    for (i, b) in all.iter().enumerate() {
        assert_eq!(tree.get(b), Some(&(i as i64)));
    }
}

#[test]
fn parent_and_child_have_their_own_slots() {
    let mut tree: tree::T<u32> = tree::T::new();
    let parent = bounds::T::new(0, 0, 0, 1);
    let child = bounds::T::new(0, 0, 0, 0);
    *tree.get_or_create(&child) = Some(1);
    assert_eq!(tree.get(&parent), None);
    *tree.get_or_create(&parent) = Some(2);
    assert_eq!(tree.get(&child), Some(&1));
    assert_eq!(tree.get(&parent), Some(&2));
}

#[test]
fn growing_keeps_every_voxel() {
    let mut tree: tree::T<u32> = tree::T::new();
    let near = [
        bounds::T::new(0, 0, 0, 0),
        bounds::T::new(-1, -1, -1, 0),
        bounds::T::new(-1, 0, 0, 0),
        bounds::T::new(0, -1, 0, -3),
        bounds::T::new(7, -8, 3, -3),
    ];
    for (i, b) in near.iter().enumerate() {
        *tree.get_or_create(b) = Some(i as u32);
    }
    let far = bounds::T::new(1 << 20, -(1 << 20), 12345, 2);
    *tree.get_or_create(&far) = Some(99);
    for (i, b) in near.iter().enumerate() {
        assert_eq!(tree.get(b), Some(&(i as u32)));
    }
    assert_eq!(tree.get(&far), Some(&99));
    assert_eq!(tree.get(&bounds::T::new(1 << 20, -(1 << 20), 12346, 2)), None);
    assert_eq!(tree.get(&bounds::T::new(1, 0, 0, 0)), None);
}

#[test]
fn clearing_a_slot_forgets_the_voxel() {
    let mut tree: tree::T<u32> = tree::T::new();
    let a = bounds::T::new(2, 2, 2, 0);
    let b = bounds::T::new(2, 2, 3, 0);
    *tree.get_or_create(&a) = Some(1);
    *tree.get_or_create(&b) = Some(2);
    *tree.get_or_create(&a) = None;
    assert_eq!(tree.get(&a), None);
    assert_eq!(tree.get(&b), Some(&2));
}

#[test]
fn tree_takes_the_corners_of_the_coordinate_range() {
    let mut tree: tree::T<u32> = tree::T::new();
    let low = bounds::T::new(i32::MIN, i32::MIN, i32::MIN, 0);
    let high = bounds::T::new(i32::MAX, i32::MAX, i32::MAX, 0);
    *tree.get_or_create(&low) = Some(1);
    *tree.get_or_create(&high) = Some(2);
    assert_eq!(tree.get(&low), Some(&1));
    assert_eq!(tree.get(&high), Some(&2));
    assert_eq!(tree.get(&bounds::T::new(i32::MAX, i32::MAX, i32::MAX - 1, 0)), None);
}

#[test]
fn tree_takes_coarse_and_fine_cubes_together() {
    let mut tree: tree::T<u32> = tree::T::new();
    let coarse = bounds::T::new(-3, 2, 0, 200);
    let fine = bounds::T::new(-3, 2, 0, -200);
    *tree.get_or_create(&fine) = Some(1);
    *tree.get_or_create(&coarse) = Some(2);
    assert_eq!(tree.get(&fine), Some(&1));
    assert_eq!(tree.get(&coarse), Some(&2));
    assert_eq!(tree.get(&bounds::T::new(-3, 2, 0, 0)), None);
}

#[test]
fn tree_takes_the_extremes_of_scale() {
    let mut tree: tree::T<u32> = tree::T::new();
    let coarse = bounds::T::new(i32::MAX, i32::MIN, 0, i16::MAX);
    let fine = bounds::T::new(i32::MAX, i32::MIN, 0, i16::MIN);
    assert_eq!(tree.get(&coarse), None);
    assert_eq!(tree.get(&fine), None);
    *tree.get_or_create(&fine) = Some(1);
    *tree.get_or_create(&coarse) = Some(2);
    assert_eq!(tree.get(&fine), Some(&1));
    assert_eq!(tree.get(&coarse), Some(&2));
    assert_eq!(tree.get(&bounds::T::new(i32::MAX, i32::MIN, 0, 0)), None);
    assert_eq!(tree.get(&bounds::T::new(i32::MAX, i32::MIN, 1, i16::MIN)), None);
}

#[test]
fn growing_step_by_step_keeps_every_voxel() {
    let mut tree: tree::T<i32> = tree::T::new();
    let mut seen = Vec::new();
    for lg in 0..40i16 {
        for b in [
            bounds::T::new(0, 0, 0, lg),
            bounds::T::new(-1, -1, -1, lg),
            bounds::T::new(1, -2, 0, lg),
        ] {
            *tree.get_or_create(&b) = Some(b.x * 100 + lg as i32);
            seen.push(b);
            for old in seen.iter() {
                assert_eq!(tree.get(old), Some(&(old.x * 100 + old.lg_size as i32)));
            }
        }
    }
    assert_eq!(tree.get(&bounds::T::new(1, -2, 1, 5)), None);
    assert_eq!(tree.get(&bounds::T::new(2, -2, 0, 5)), None);
}

#[test]
fn new_tree_has_no_nodes() {
    let tree: tree::T<u32> = tree::T::new();
    assert_eq!(tree.lg_size_of(), 0);
    assert!(!tree.contains_node(&bounds::T::new(0, 0, 0, 0)));
    assert!(!tree.contains_node(&bounds::T::new(-1, -1, -1, 0)));
    assert!(!tree.contains_node(&bounds::T::new(0, 0, 0, -1)));
    assert!(!tree.contains_node(&bounds::T::new(0, 0, 0, 1)));
}

#[test]
fn get_or_create_brings_the_nodes_on_the_way_into_being() {
    let mut tree: tree::T<u32> = tree::T::new();
    let b = bounds::T::new(-3, 2, 1, -2);
    let _ = tree.get_or_create(&b);
    assert_eq!(tree.lg_size_of(), 0);
    assert!(tree.contains_node(&b));
    assert!(tree.contains_node(&bounds::T::new(-2, 1, 0, -1)));
    assert!(tree.contains_node(&bounds::T::new(-1, 0, 0, 0)));
    assert!(!tree.contains_node(&bounds::T::new(-3, 2, 0, -2)));
    assert!(!tree.contains_node(&bounds::T::new(-2, 1, 1, -1)));
    assert!(!tree.contains_node(&bounds::T::new(0, 0, 0, 0)));
    assert!(!tree.contains_node(&bounds::T::new(-6, 4, 2, -3)));
    assert_eq!(tree.get(&b), None);
    assert_eq!(tree.get(&bounds::T::new(-1, 0, 0, 0)), None);
}

#[test]
fn tree_doubles_until_it_holds_the_cube_and_no_further() {
    let mut tree: tree::T<u32> = tree::T::new();
    *tree.get_or_create(&bounds::T::new(5, 0, 0, 0)) = Some(1);
    assert_eq!(tree.lg_size_of(), 3);
    *tree.get_or_create(&bounds::T::new(-8, 7, 0, 0)) = Some(2);
    assert_eq!(tree.lg_size_of(), 3);
    *tree.get_or_create(&bounds::T::new(-9, 0, 0, 0)) = Some(3);
    assert_eq!(tree.lg_size_of(), 4);
    *tree.get_or_create(&bounds::T::new(0, 0, 0, 9)) = Some(4);
    assert_eq!(tree.lg_size_of(), 9);
    *tree.get_or_create(&bounds::T::new(0, 0, 0, i16::MAX)) = Some(5);
    assert_eq!(tree.lg_size_of(), i16::MAX as i32);
    *tree.get_or_create(&bounds::T::new(i32::MAX, 0, 0, i16::MAX)) = Some(6);
    assert_eq!(tree.lg_size_of(), i16::MAX as i32 + 31);
}

#[test]
fn doubling_brings_the_cubes_around_the_origin_into_being() {
    let mut tree: tree::T<u32> = tree::T::new();
    let _ = tree.get_or_create(&bounds::T::new(5, 0, 0, 0));
    // On the way: the cube and the cubes that hold it.
    assert!(tree.contains_node(&bounds::T::new(5, 0, 0, 0)));
    assert!(tree.contains_node(&bounds::T::new(2, 0, 0, 1)));
    assert!(tree.contains_node(&bounds::T::new(1, 0, 0, 2)));
    assert!(tree.contains_node(&bounds::T::new(0, 0, 0, 3)));
    // Around the origin, at each scale that a doubling added.
    for lg in 1..4 {
        for x in [-1, 0] {
            for y in [-1, 0] {
                for z in [-1, 0] {
                    assert!(tree.contains_node(&bounds::T::new(x, y, z, lg)));
                }
            }
        }
    }
    // Nothing else.
    assert!(!tree.contains_node(&bounds::T::new(0, 0, 0, 0)));
    assert!(!tree.contains_node(&bounds::T::new(-1, -1, -1, 0)));
    assert!(!tree.contains_node(&bounds::T::new(4, 0, 0, 0)));
    assert!(!tree.contains_node(&bounds::T::new(1, 0, 0, 1)));
    assert!(!tree.contains_node(&bounds::T::new(3, 0, 0, 1)));
    assert!(!tree.contains_node(&bounds::T::new(1, 1, 0, 2)));
    assert!(!tree.contains_node(&bounds::T::new(0, 0, 0, 4)));
}

#[test]
fn get_brings_no_node_into_being() {
    let mut tree: tree::T<u32> = tree::T::new();
    *tree.get_or_create(&bounds::T::new(0, 0, 0, 0)) = Some(1);
    let far = bounds::T::new(100, 100, 100, 0);
    assert_eq!(tree.get(&far), None);
    assert!(!tree.contains_node(&far));
    assert_eq!(tree.lg_size_of(), 0);
}
