use std::cmp::Ordering;

use module_lang::ModuleId;

#[test]
fn crate_builds_under_test_harness() {}

#[test]
fn test_id_round_trips_through_its_index() {
    let id = ModuleId::from_index(7);
    assert_eq!(id.to_u32(), 7);
    assert_eq!(id.to_index(), 7);
}

#[test]
fn test_ids_order_by_index() {
    assert!(ModuleId::from_index(1) < ModuleId::from_index(2));
    assert_eq!(ModuleId::from_index(3), ModuleId::from_index(3));
}

#[test]
fn id_extremes_round_trip() {
    assert_eq!(ModuleId::from_index(0).to_u32(), 0);
    assert_eq!(ModuleId::from_index(u32::MAX).to_u32(), u32::MAX);
    assert_eq!(ModuleId::from_index(u32::MAX).to_index(), u32::MAX as usize);
    assert_ne!(ModuleId::from_index(0), ModuleId::from_index(1));
}

#[test]
fn ids_order_by_index_then_graph() {
    assert_eq!(ModuleId::from_index(1).partial_cmp(&ModuleId::from_index(2)), Some(Ordering::Less));
    assert_eq!(ModuleId::from_index(5).partial_cmp(&ModuleId::from_index(5)), Some(Ordering::Equal));
    assert!(ModuleId::from_parts(9, 1) < ModuleId::from_parts(1, 2));
    assert!(ModuleId::from_parts(1, 2) < ModuleId::from_parts(9, 2));
    assert_eq!(ModuleId::from_parts(1, 2).cmp(&ModuleId::from_parts(9, 2)), Ordering::Less);
    assert!(ModuleId::from_index(3) >= ModuleId::from_index(3));
}

#[test]
fn ids_from_parts_round_trip() {
    let id = ModuleId::from_parts(77, 4);
    assert_eq!(id.to_u32(), 4);
    assert_eq!(id.graph_tag(), 77);
    assert_eq!(ModuleId::from_parts(id.graph_tag(), id.to_u32()), id);
    assert_eq!(ModuleId::from_index(4).graph_tag(), 0);
    assert_ne!(ModuleId::from_index(4), id);
}
