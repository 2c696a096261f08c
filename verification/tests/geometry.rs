use voxel_terrain::geometry::{copy_of, Aabb3, Point3, Vector3};

#[test]
fn point_vector_and_box_keep_their_parts() {
    let p = Point3::new(1, 2, 3);
    let v = Vector3::new(4u8, 5, 6);
    let b = Aabb3::new(p, Point3::new(7, 8, 9));
    assert_eq!((p.x, p.y, p.z), (1, 2, 3));
    assert_eq!((v.x, v.y, v.z), (4, 5, 6));
    assert_eq!(b.min, p);
    assert_eq!(b.max, Point3 { x: 7, y: 8, z: 9 });
    assert_eq!(p.clone(), p);
    assert_eq!(v.clone(), v);
    assert_eq!(b.clone(), b);
}

#[test]
fn copy_of_copies_every_item() {
    assert_eq!(copy_of(&vec![3, 1, 2]), vec![3, 1, 2]);
    assert_eq!(copy_of(&Vec::<u8>::new()), Vec::<u8>::new());
}
