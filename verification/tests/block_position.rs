use voxel_terrain::block_position;
use voxel_terrain::bounds;
use voxel_terrain::geometry::{Point3, Vector3};

fn floor_of(world: (f32, f32, f32)) -> Point3<i32> {
    Point3::new(world.0.floor() as i32, world.1.floor() as i32, world.2.floor() as i32)
}

#[test]
fn new_and_as_pnt_agree() {
    let p = block_position::new(1, -2, 3);
    assert_eq!(*p.as_pnt(), Point3::new(1, -2, 3));
}

#[test]
fn of_pnt_keeps_the_point() {
    let pnt = Point3::new(-7, 8, 9);
    assert_eq!(*block_position::of_pnt(&pnt).as_pnt(), pnt);
    assert_eq!(block_position::of_pnt(&pnt), block_position::new(-7, 8, 9));
}

#[test]
fn as_mut_pnt_writes_through() {
    let mut p = block_position::new(1, 2, 3);
    p.as_mut_pnt().y = -20;
    *p.as_mut_pnt() = Point3::new(p.as_pnt().x + 1, p.as_pnt().y, 0);
    assert_eq!(p, block_position::new(2, -20, 0));
}

#[test]
fn of_world_position_floors_negative_coordinates() {
    // World x = -0.5 with block width 8 lies in block -1, not 0.
    let p = block_position::of_world_position(&floor_of((-0.5, 0.5, -8.5)));
    assert_eq!(p, block_position::new(-1, 0, -2));
}

#[test]
fn of_world_position_at_block_edges() {
    let cases = [
        (0, 0),
        (7, 0),
        (8, 1),
        (15, 1),
        (16, 2),
        (-1, -1),
        (-8, -1),
        (-9, -2),
        (-16, -2),
        (-17, -3),
        (i32::MAX, 268_435_455),
        (i32::MIN, -268_435_456),
    ];
    for (world, block) in cases {
        let p = block_position::of_world_position(&Point3::new(world, -world.max(-i32::MAX), 0));
        assert_eq!(p.as_pnt().x, block);
    }
    let p = block_position::of_world_position(&Point3::new(-1, 8, 7));
    assert_eq!(p, block_position::new(-1, 1, 0));
}

#[test]
fn to_world_position_is_the_low_corner() {
    let p = block_position::new(1, -1, 0);
    assert_eq!(p.to_world_position(), Point3::new(8i64, -8, 0));
    let far = block_position::new(i32::MAX, i32::MIN, 5);
    assert_eq!(far.to_world_position(), Point3::new(17_179_869_176i64, -17_179_869_184, 40));
}

#[test]
fn world_position_round_trip_is_stable() {
    for x in -40..40 {
        let world = Point3::new(x, 3 * x, -x);
        let block = block_position::of_world_position(&world);
        let corner = block.to_world_position();
        let back = block_position::of_world_position(
            &Point3::new(corner.x as i32, corner.y as i32, corner.z as i32),
        );
        assert_eq!(back, block);
        assert!(corner.x <= x as i64 && (x as i64) < corner.x + 8);
    }
}

#[test]
fn containing_voxel_of_small_voxels() {
    // Voxels of size 1/4: 32 of them along a block.
    let p = block_position::containing_voxel(&bounds::T::new(31, 32, -1, -2));
    assert_eq!(p, block_position::new(0, 1, -1));
    let p = block_position::containing_voxel(&bounds::T::new(-32, -33, 63, -2));
    assert_eq!(p, block_position::new(-1, -2, 1));
}

#[test]
fn containing_voxel_of_unit_and_larger_voxels() {
    assert_eq!(
        block_position::containing_voxel(&bounds::T::new(7, 8, -1, 0)),
        block_position::new(0, 1, -1)
    );
    assert_eq!(
        block_position::containing_voxel(&bounds::T::new(3, 4, -1, 1)),
        block_position::new(0, 1, -1)
    );
    assert_eq!(
        block_position::containing_voxel(&bounds::T::new(1, 2, -1, 2)),
        block_position::new(0, 1, -1)
    );
    assert_eq!(
        block_position::containing_voxel(&bounds::T::new(5, -5, 0, 3)),
        block_position::new(5, -5, 0)
    );
}

#[test]
fn containing_voxel_at_the_extremes() {
    assert_eq!(
        block_position::containing_voxel(&bounds::T::new(i32::MAX, i32::MIN, 0, 2)),
        block_position::new(1_073_741_823, -1_073_741_824, 0)
    );
    assert_eq!(
        block_position::containing_voxel(&bounds::T::new(i32::MAX, i32::MIN, -1, -40)),
        block_position::new(0, -1, -1)
    );
    assert_eq!(
        block_position::containing_voxel(&bounds::T::new(i32::MAX, i32::MIN, -1, i16::MIN)),
        block_position::new(0, -1, -1)
    );
}

#[test]
fn add_moves_by_blocks() {
    let p = block_position::new(1, 2, 3) + Vector3::new(-1, 10, 0);
    assert_eq!(p, block_position::new(0, 12, 3));
    let q = block_position::new(i32::MAX - 1, i32::MIN + 1, 0) + Vector3::new(1, -1, 0);
    assert_eq!(q, block_position::new(i32::MAX, i32::MIN, 0));
}

#[test]
fn containing_voxel_of_a_cube_coarser_than_a_block_is_the_block_of_its_low_corner() {
    assert_eq!(
        block_position::containing_voxel(&bounds::T::new(1, 0, -1, 4)),
        block_position::new(2, 0, -2)
    );
    assert_eq!(
        block_position::containing_voxel(&bounds::T::new(3, -3, 0, 6)),
        block_position::new(24, -24, 0)
    );
    assert_eq!(
        block_position::containing_voxel(&bounds::T::new(0, 0, 0, i16::MAX)),
        block_position::new(0, 0, 0)
    );
    assert_eq!(
        block_position::containing_voxel(&bounds::T::new(1, -1, 0, 33)),
        block_position::new(1_073_741_824, -1_073_741_824, 0)
    );
    assert_eq!(
        block_position::containing_voxel(&bounds::T::new(-1, 0, 0, 34)),
        block_position::new(i32::MIN, 0, 0)
    );
}

#[test]
fn on_block_grid_as_far_as_the_coordinates_fit() {
    assert!(block_position::is_on_block_grid(&bounds::T::new(i32::MAX, i32::MIN, 0, 3)));
    assert!(block_position::is_on_block_grid(&bounds::T::new(i32::MAX, i32::MIN, 0, i16::MIN)));
    assert!(block_position::is_on_block_grid(&bounds::T::new(1, 0, -1, 4)));
    assert!(block_position::is_on_block_grid(&bounds::T::new(0, 0, 0, i16::MAX)));
    assert!(block_position::is_on_block_grid(&bounds::T::new(1_073_741_823, -1_073_741_824, 0, 4)));
    assert!(!block_position::is_on_block_grid(&bounds::T::new(1_073_741_824, 0, 0, 4)));
    assert!(!block_position::is_on_block_grid(&bounds::T::new(0, -1_073_741_825, 0, 4)));
    assert!(block_position::is_on_block_grid(&bounds::T::new(-1, 0, 0, 34)));
    assert!(!block_position::is_on_block_grid(&bounds::T::new(1, 0, 0, 34)));
    assert!(!block_position::is_on_block_grid(&bounds::T::new(0, 0, -1, 35)));
    assert!(!block_position::is_on_block_grid(&bounds::T::new(0, 1, 0, i16::MAX)));
}
