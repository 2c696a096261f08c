use voxel_terrain::entity::EntityId;

#[test]
fn default_entity_id_is_zero() {
    assert_eq!(EntityId::default(), EntityId(0));
}

#[test]
fn entity_id_add_counts_up() {
    assert_eq!(EntityId(5) + 3, EntityId(8));
    assert_eq!(EntityId::default() + 0, EntityId(0));
    assert_eq!(EntityId(u32::MAX - 1) + 1, EntityId(u32::MAX));
}

#[test]
fn entity_ids_are_ordered_by_number() {
    assert!(EntityId(1) < EntityId(2));
    assert!(EntityId(2) <= EntityId(2));
    assert_ne!(EntityId(1), EntityId(2));
}
