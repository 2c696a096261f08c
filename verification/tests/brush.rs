use voxel_terrain::bounds;
use voxel_terrain::brush;
use voxel_terrain::geometry::Point3;
use voxel_terrain::tree;

fn cube_brush<E>(low: (i32, i32, i32), high: (i32, i32, i32), lg_size: i16, edit: E) -> brush::T<E> {
    brush::T {
        bounds: brush::Bounds {
            low: Point3::new(low.0, low.1, low.2),
            high: Point3::new(high.0, high.1, high.2),
        },
        edit,
        lg_size,
    }
}

#[test]
fn brush_edits_every_cube_it_touches() {
    let mut tree: tree::T<i64> = tree::T::new();
    let brush = cube_brush((-1, 0, 2), (1, 2, 3), 0, |v: &i64| *v + 100);
    let generate = |b: &bounds::T| (b.x * 9 + b.y * 3 + b.z) as i64;
    let changed = tree.brush(&brush, &generate);
    assert_eq!(changed.len(), 4);
    for b in changed.iter() {
        assert_eq!(tree.get(b), Some(&((b.x * 9 + b.y * 3 + b.z) as i64 + 100)));
    }
    assert_eq!(tree.get(&bounds::T::new(-1, 0, 2, 0)), Some(&93));
    assert_eq!(tree.get(&bounds::T::new(0, 1, 2, 0)), Some(&105));
}

#[test]
fn brush_reports_cubes_with_x_slowest_and_z_fastest() {
    let mut tree: tree::T<u8> = tree::T::new();
    let brush = cube_brush((0, 0, 0), (2, 2, 2), -1, |v: &u8| *v);
    let changed = tree.brush(&brush, &|_: &bounds::T| 0u8);
    let expected = vec![
        bounds::T::new(0, 0, 0, -1),
        bounds::T::new(0, 0, 1, -1),
        bounds::T::new(0, 1, 0, -1),
        bounds::T::new(0, 1, 1, -1),
        bounds::T::new(1, 0, 0, -1),
        bounds::T::new(1, 0, 1, -1),
        bounds::T::new(1, 1, 0, -1),
        bounds::T::new(1, 1, 1, -1),
    ];
    assert_eq!(changed, expected);
}

#[test]
fn brush_leaves_other_cubes_alone() {
    let mut tree: tree::T<i64> = tree::T::new();
    let outside = bounds::T::new(5, 5, 5, 0);
    let other_scale = bounds::T::new(0, 0, 0, 1);
    let finer = bounds::T::new(0, 0, 0, -1);
    *tree.get_or_create(&outside) = Some(1);
    *tree.get_or_create(&other_scale) = Some(2);
    let brush = cube_brush((0, 0, 0), (2, 2, 2), 0, |_: &i64| 7);
    tree.brush(&brush, &|_: &bounds::T| 0i64);
    assert_eq!(tree.get(&outside), Some(&1));
    assert_eq!(tree.get(&other_scale), Some(&2));
    assert_eq!(tree.get(&finer), None);
    assert_eq!(tree.get(&bounds::T::new(2, 0, 0, 0)), None);
    assert_eq!(tree.get(&bounds::T::new(-1, 0, 0, 0)), None);
    assert_eq!(tree.get(&bounds::T::new(1, 1, 1, 0)), Some(&7));
}

#[test]
fn brush_edits_stored_voxels_and_generates_missing_ones() {
    let mut tree: tree::T<i64> = tree::T::new();
    let stored = bounds::T::new(0, 0, 0, 0);
    *tree.get_or_create(&stored) = Some(40);
    let brush = cube_brush((0, 0, 0), (1, 1, 2), 0, |v: &i64| *v * 2);
    let changed = tree.brush(&brush, &|_: &bounds::T| 1000i64);
    assert_eq!(changed, vec![stored, bounds::T::new(0, 0, 1, 0)]);
    assert_eq!(tree.get(&stored), Some(&80));
    assert_eq!(tree.get(&bounds::T::new(0, 0, 1, 0)), Some(&2000));
}

#[test]
fn brush_with_an_empty_box_changes_nothing() {
    let mut tree: tree::T<i64> = tree::T::new();
    let kept = bounds::T::new(0, 0, 0, 0);
    *tree.get_or_create(&kept) = Some(3);
    for (low, high) in [((0, 0, 0), (0, 5, 5)), ((0, 0, 0), (5, 0, 5)), ((0, 0, 0), (5, 5, 0)), ((3, 3, 3), (1, 1, 1))] {
        let brush = cube_brush(low, high, 0, |_: &i64| 9);
        let changed = tree.brush(&brush, &|_: &bounds::T| 0i64);
        assert!(changed.is_empty());
    }
    assert_eq!(tree.get(&kept), Some(&3));
    assert_eq!(tree.get(&bounds::T::new(1, 1, 1, 0)), None);
}

#[test]
fn idempotent_brush_applied_twice_is_applied_once() {
    let mut once: tree::T<i64> = tree::T::new();
    let mut twice: tree::T<i64> = tree::T::new();
    let seeded = bounds::T::new(1, 1, 1, 0);
    *once.get_or_create(&seeded) = Some(-50);
    *twice.get_or_create(&seeded) = Some(-50);
    let generate = |b: &bounds::T| (b.x - b.y + b.z) as i64 * 10;
    let brush = cube_brush((-2, -2, -2), (2, 2, 2), 0, |v: &i64| if *v < 0 { 0 } else { *v });
    let first = once.brush(&brush, &generate);
    twice.brush(&brush, &generate);
    let second = twice.brush(&brush, &generate);
    assert_eq!(first, second);
    assert_eq!(first.len(), 64);
    for b in first.iter() {
        assert_eq!(once.get(b), twice.get(b));
    }
    assert_eq!(twice.get(&seeded), Some(&0));
    assert_eq!(twice.get(&bounds::T::new(1, -2, 1, 0)), Some(&40));
}

#[test]
fn brush_that_is_not_idempotent_adds_up() {
    let mut tree: tree::T<i64> = tree::T::new();
    let brush = cube_brush((0, 0, 0), (1, 1, 1), 0, |v: &i64| *v + 1);
    tree.brush(&brush, &|_: &bounds::T| 10i64);
    tree.brush(&brush, &|_: &bounds::T| 10i64);
    assert_eq!(tree.get(&bounds::T::new(0, 0, 0, 0)), Some(&12));
}

#[test]
fn brush_brings_nodes_into_being_as_an_access_does() {
    let mut brushed: tree::T<i64> = tree::T::new();
    let mut accessed: tree::T<i64> = tree::T::new();
    let brush = cube_brush((3, -1, 0), (5, 1, 1), 0, |v: &i64| *v);
    let changed = brushed.brush(&brush, &|_: &bounds::T| 0i64);
    for b in changed.iter() {
        let _ = accessed.get_or_create(b);
    }
    assert_eq!(brushed.lg_size_of(), 3);
    assert_eq!(brushed.lg_size_of(), accessed.lg_size_of());
    for lg in -1i16..5 {
        for x in -9..9 {
            for y in -3..3 {
                for z in -2..2 {
                    let q = bounds::T::new(x, y, z, lg);
                    assert_eq!(brushed.contains_node(&q), accessed.contains_node(&q));
                }
            }
        }
    }
    assert!(brushed.contains_node(&bounds::T::new(4, -1, 0, 0)));
    assert!(brushed.contains_node(&bounds::T::new(2, -1, 0, 1)));
    assert!(brushed.contains_node(&bounds::T::new(-1, -1, -1, 2)));
    assert!(!brushed.contains_node(&bounds::T::new(5, 0, 0, 0)));
    assert!(!brushed.contains_node(&bounds::T::new(0, 0, 0, 0)));
}
