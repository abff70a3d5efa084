use bevy::prelude::{Name, Transform, World};
use replicon_dispatch::shared::command_markers::{
    CommandMarker, CommandMarkers, EntityMarkers, MarkerConfig,
};
use replicon_dispatch::shared::replication_registry::ReplicationRegistry;

fn marker(component_id: usize, priority: usize, need_history: bool) -> CommandMarker {
    CommandMarker { component_id, config: MarkerConfig { priority, need_history } }
}

fn priorities(markers: &CommandMarkers) -> Vec<usize> {
    (0..markers.len()).map(|index| markers.get(index).config.priority).collect()
}

fn component_ids(markers: &CommandMarkers) -> Vec<usize> {
    (0..markers.len()).map(|index| markers.get(index).component_id).collect()
}

#[test]
fn sorting() {
    let mut registry = ReplicationRegistry::<u32>::new(0);
    registry.register_marker(0);
    registry.register_marker_with(1, MarkerConfig { priority: 2, ..Default::default() });
    registry.register_marker_with(2, MarkerConfig { priority: 1, ..Default::default() });
    registry.register_marker(3);

    let priorities = priorities(registry.markers());
    assert_eq!(priorities, [2, 1, 0, 0]);
}

#[test]
fn default_config_has_lowest_priority_and_no_history() {
    let config = MarkerConfig::default();
    assert_eq!(config.priority, 0);
    assert!(!config.need_history);
}

#[test]
fn insert_returns_position_behind_equal_priorities() {
    let mut markers = CommandMarkers::default();
    assert_eq!(markers.len(), 0);
    assert_eq!(markers.insert(marker(10, 0, false)), 0);
    assert_eq!(markers.insert(marker(11, 2, false)), 0);
    assert_eq!(markers.insert(marker(12, 1, false)), 1);
    assert_eq!(markers.insert(marker(13, 0, false)), 3);
    assert_eq!(markers.insert(marker(14, 2, false)), 1);
    assert_eq!(markers.insert(marker(15, 1, false)), 3);
    assert_eq!(markers.insert(marker(16, 5, false)), 0);
    assert_eq!(markers.len(), 7);
    assert_eq!(priorities(&markers), [5, 2, 2, 1, 1, 0, 0]);
}

#[test]
fn equal_priorities_keep_registration_order() {
    let mut markers = CommandMarkers::default();
    for (component_id, priority) in [(0, 1), (1, 3), (2, 1), (3, 3), (4, 1), (5, 2), (6, 3)] {
        markers.insert(marker(component_id, priority, false));
    }
    assert_eq!(priorities(&markers), [3, 3, 3, 2, 1, 1, 1]);
    assert_eq!(component_ids(&markers), [1, 3, 6, 5, 0, 2, 4]);
}

#[test]
fn insertion_moves_markers_of_lower_priority() {
    let mut markers = CommandMarkers::default();
    let low = markers.insert(marker(7, 1, false));
    assert_eq!(low, 0);
    assert_eq!(markers.marker_id(7), 0);
    let high = markers.insert(marker(8, 4, true));
    assert_eq!(high, 0);
    assert_eq!(markers.marker_id(8), 0);
    assert_eq!(markers.marker_id(7), 1);
    assert_eq!(markers.get(1).component_id, 7);
}

#[test]
fn marker_id_is_first_position_of_component() {
    let mut markers = CommandMarkers::default();
    markers.insert(marker(20, 1, false));
    markers.insert(marker(21, 3, false));
    markers.insert(marker(20, 2, false));
    assert_eq!(component_ids(&markers), [21, 20, 20]);
    assert_eq!(markers.marker_id(21), 0);
    assert_eq!(markers.marker_id(20), 1);
    assert_eq!(markers.find(20), Some(1));
    assert_eq!(markers.find(21), Some(0));
}

#[test]
fn unregistered_marker_is_not_found() {
    let mut markers = CommandMarkers::default();
    assert_eq!(markers.find(1), None);
    markers.insert(marker(2, 0, false));
    assert_eq!(markers.find(1), None);
    assert_eq!(markers.find(2), Some(0));
}

#[test]
fn require_history_follows_registry_order() {
    let mut markers = CommandMarkers::default();
    assert_eq!(markers.iter_require_history(), Vec::<bool>::new());
    markers.insert(marker(0, 1, true));
    markers.insert(marker(1, 5, false));
    markers.insert(marker(2, 3, true));
    markers.insert(marker(3, 0, false));
    assert_eq!(markers.iter_require_history(), [false, true, true, false]);
}

#[test]
fn snapshot_starts_empty() {
    let mut markers = CommandMarkers::default();
    markers.insert(marker(0, 0, true));
    let entity_markers = EntityMarkers::new(&markers);
    assert!(entity_markers.markers().is_empty());
    assert!(!entity_markers.need_history());
}

#[test]
fn record_appends_and_accumulates_history() {
    let markers = CommandMarkers::default();
    let mut entity_markers = EntityMarkers::new(&markers);
    entity_markers.record(false, true);
    assert_eq!(entity_markers.markers(), [false]);
    assert!(!entity_markers.need_history());
    entity_markers.record(true, false);
    assert_eq!(entity_markers.markers(), [false, true]);
    assert!(!entity_markers.need_history());
    entity_markers.record(true, true);
    assert_eq!(entity_markers.markers(), [false, true, true]);
    assert!(entity_markers.need_history());
    entity_markers.record(false, false);
    assert_eq!(entity_markers.markers(), [false, true, true, false]);
    assert!(entity_markers.need_history());

    entity_markers.clear();
    assert!(entity_markers.markers().is_empty());
    assert!(!entity_markers.need_history());
}

#[test]
fn read_probes_entity_for_each_marker() {
    let mut world = World::new();
    let name_id = world.init_component::<Name>().index();
    let transform_id = world.init_component::<Transform>().index();
    let named = world.spawn(Name::new("named")).id();
    let placed = world.spawn(Transform::IDENTITY).id();
    let both = world.spawn((Name::new("both"), Transform::IDENTITY)).id();
    let bare = world.spawn_empty().id();

    let mut markers = CommandMarkers::default();
    markers.insert(marker(name_id, 1, false));
    markers.insert(marker(transform_id, 2, true));
    assert_eq!(component_ids(&markers), [transform_id, name_id]);

    let mut entity_markers = EntityMarkers::new(&markers);

    entity_markers.read(&markers, world.entity(named));
    assert_eq!(entity_markers.markers(), [false, true]);
    assert!(!entity_markers.need_history());

    entity_markers.read(&markers, world.entity(placed));
    assert_eq!(entity_markers.markers(), [true, false]);
    assert!(entity_markers.need_history());

    entity_markers.read(&markers, world.entity(both));
    assert_eq!(entity_markers.markers(), [true, true]);
    assert!(entity_markers.need_history());

    entity_markers.read(&markers, world.entity(bare));
    assert_eq!(entity_markers.markers(), [false, false]);
    assert!(!entity_markers.need_history());
}

#[test]
fn read_forgets_previous_entity() {
    let mut world = World::new();
    let name_id = world.init_component::<Name>().index();
    let named = world.spawn(Name::new("named")).id();
    let bare = world.spawn_empty().id();

    let mut markers = CommandMarkers::default();
    markers.insert(marker(name_id, 0, true));

    let mut entity_markers = EntityMarkers::new(&markers);
    entity_markers.read(&markers, world.entity(named));
    assert_eq!(entity_markers.markers(), [true]);
    assert!(entity_markers.need_history());
    entity_markers.read(&markers, world.entity(bare));
    assert_eq!(entity_markers.markers(), [false]);
    assert!(!entity_markers.need_history());
}
