use replicon_dispatch::shared::command_markers::{CommandMarkers, EntityMarkers, MarkerConfig};
use replicon_dispatch::shared::replication_fns::ReplicationFns;
use replicon_dispatch::shared::replication_registry::ReplicationRegistry;
use replicon_dispatch::shared::update_order::UpdateOrder;

type Fns = (&'static str, &'static str);

const FALLBACK: Fns = ("default_write", "default_remove");

const MARKER_A: usize = 100;
const MARKER_B: usize = 101;
const MARKER_C: usize = 102;
const COMPONENT_X: usize = 1;
const COMPONENT_Y: usize = 2;

fn snapshot(present: &[(bool, bool)]) -> EntityMarkers {
    let mut entity_markers = EntityMarkers::new(&CommandMarkers::default());
    for &(contains, need_history) in present {
        entity_markers.record(contains, need_history);
    }
    entity_markers
}

fn scenario() -> ReplicationRegistry<Fns> {
    let mut registry = ReplicationRegistry::new(FALLBACK);
    registry.register_marker_with(MARKER_A, MarkerConfig { priority: 5, need_history: false });
    registry.register_marker_with(MARKER_B, MarkerConfig { priority: 1, need_history: true });
    registry.set_command_fns(COMPONENT_X, ("write_default", "remove_default"));
    registry.set_marker_fns(MARKER_A, COMPONENT_X, ("write_a", "remove_a"));
    registry.set_marker_fns(MARKER_B, COMPONENT_X, ("write_b", "remove_b"));
    registry
}

#[test]
fn resolve_follows_marker_priority() {
    let registry = scenario();
    assert_eq!(registry.markers().marker_id(MARKER_A), 0);
    assert_eq!(registry.markers().marker_id(MARKER_B), 1);

    let only_b = snapshot(&[(false, false), (true, true)]);
    assert_eq!(*registry.resolve(COMPONENT_X, &only_b), ("write_b", "remove_b"));

    let both = snapshot(&[(true, false), (true, true)]);
    assert_eq!(*registry.resolve(COMPONENT_X, &both), ("write_a", "remove_a"));

    let neither = snapshot(&[(false, false), (false, true)]);
    assert_eq!(*registry.resolve(COMPONENT_X, &neither), ("write_default", "remove_default"));
}

#[test]
fn resolve_uses_fallback_for_unknown_component() {
    let registry = scenario();
    let both = snapshot(&[(true, false), (true, true)]);
    assert_eq!(*registry.resolve(COMPONENT_Y, &both), FALLBACK);
    assert!(!registry.fns().contains(COMPONENT_Y));
    assert!(registry.fns().contains(COMPONENT_X));

    let empty = ReplicationRegistry::new(FALLBACK);
    assert_eq!(*empty.resolve(COMPONENT_X, &snapshot(&[])), FALLBACK);
}

#[test]
fn resolve_skips_present_marker_without_functions() {
    let mut registry = ReplicationRegistry::new(FALLBACK);
    registry.register_marker_with(MARKER_A, MarkerConfig { priority: 5, need_history: false });
    registry.register_marker_with(MARKER_B, MarkerConfig { priority: 1, need_history: true });
    registry.set_command_fns(COMPONENT_X, ("write_default", "remove_default"));
    registry.set_command_fns(COMPONENT_Y, ("write_y", "remove_y"));
    registry.set_marker_fns(MARKER_B, COMPONENT_X, ("write_b", "remove_b"));

    let both = snapshot(&[(true, false), (true, true)]);
    assert_eq!(*registry.resolve(COMPONENT_X, &both), ("write_b", "remove_b"));
    assert_eq!(*registry.resolve(COMPONENT_Y, &both), ("write_y", "remove_y"));
    let only_a = snapshot(&[(true, false), (false, true)]);
    assert_eq!(*registry.resolve(COMPONENT_X, &only_a), ("write_default", "remove_default"));
}

#[test]
fn equal_priority_resolves_to_first_registered() {
    let mut registry = ReplicationRegistry::new(FALLBACK);
    registry.register_marker_with(MARKER_A, MarkerConfig { priority: 3, need_history: false });
    registry.register_marker_with(MARKER_B, MarkerConfig { priority: 3, need_history: false });
    registry.set_command_fns(COMPONENT_X, ("write_default", "remove_default"));
    registry.set_marker_fns(MARKER_B, COMPONENT_X, ("write_b", "remove_b"));
    registry.set_marker_fns(MARKER_A, COMPONENT_X, ("write_a", "remove_a"));

    let both = snapshot(&[(true, false), (true, false)]);
    assert_eq!(*registry.resolve(COMPONENT_X, &both), ("write_a", "remove_a"));
}

#[test]
fn functions_follow_their_marker_when_it_moves() {
    let mut registry = ReplicationRegistry::new(FALLBACK);
    registry.set_command_fns(COMPONENT_X, ("write_default", "remove_default"));
    assert_eq!(registry.register_marker_with(MARKER_B, MarkerConfig { priority: 1, need_history: true }), 0);
    registry.set_marker_fns(MARKER_B, COMPONENT_X, ("write_b", "remove_b"));
    assert_eq!(registry.register_marker_with(MARKER_A, MarkerConfig { priority: 5, need_history: false }), 0);
    assert_eq!(registry.register_marker_with(MARKER_C, MarkerConfig { priority: 3, need_history: false }), 1);
    assert_eq!(registry.markers().marker_id(MARKER_B), 2);
    assert_eq!(registry.fns().slots(), 3);

    let only_b = snapshot(&[(false, false), (false, false), (true, true)]);
    assert_eq!(*registry.resolve(COMPONENT_X, &only_b), ("write_b", "remove_b"));
    let a_and_c = snapshot(&[(true, false), (true, false), (false, true)]);
    assert_eq!(*registry.resolve(COMPONENT_X, &a_and_c), ("write_default", "remove_default"));

    registry.set_marker_fns(MARKER_C, COMPONENT_X, ("write_c", "remove_c"));
    let all = snapshot(&[(true, false), (true, false), (true, true)]);
    assert_eq!(*registry.resolve(COMPONENT_X, &all), ("write_c", "remove_c"));
    assert_eq!(*registry.resolve(COMPONENT_X, &only_b), ("write_b", "remove_b"));
}

#[test]
fn set_command_fns_replaces_default_and_keeps_marker_functions() {
    let mut registry = scenario();
    registry.set_command_fns(COMPONENT_X, ("write_other", "remove_other"));
    let neither = snapshot(&[(false, false), (false, true)]);
    assert_eq!(*registry.resolve(COMPONENT_X, &neither), ("write_other", "remove_other"));
    let only_b = snapshot(&[(false, false), (true, true)]);
    assert_eq!(*registry.resolve(COMPONENT_X, &only_b), ("write_b", "remove_b"));
}

#[test]
fn table_resolves_by_slot() {
    let mut fns = ReplicationFns::new("fallback");
    assert_eq!(fns.slots(), 0);
    fns.set_command_fns(COMPONENT_X, "x");
    fns.register_marker(0);
    fns.register_marker(1);
    fns.set_command_fns(COMPONENT_Y, "y");
    assert_eq!(fns.slots(), 2);
    fns.set_marker_fns(1, COMPONENT_X, "x1");
    fns.set_marker_fns(0, COMPONENT_Y, "y0");
    fns.register_marker(0);
    assert_eq!(fns.slots(), 3);

    assert_eq!(fns.winning_marker(COMPONENT_X, &[true, true, true]), Some(2));
    assert_eq!(fns.winning_marker(COMPONENT_Y, &[true, true, true]), Some(1));
    assert_eq!(fns.winning_marker(COMPONENT_X, &[true, true, false]), None);
    assert_eq!(fns.winning_marker(7, &[true, true, true]), None);
    assert_eq!(*fns.resolve(COMPONENT_X, &[false, false, true]), "x1");
    assert_eq!(*fns.resolve(COMPONENT_X, &[true, true, false]), "x");
    assert_eq!(*fns.resolve(COMPONENT_Y, &[false, true, false]), "y0");
    assert_eq!(*fns.resolve(COMPONENT_Y, &[true, false, true]), "y");
    assert_eq!(*fns.resolve(7, &[true, true, true]), "fallback");
}

#[test]
fn shorter_snapshot_counts_missing_markers_as_absent() {
    let mut fns = ReplicationFns::new("fallback");
    fns.set_command_fns(COMPONENT_X, "x");
    fns.register_marker(0);
    fns.register_marker(1);
    fns.set_marker_fns(1, COMPONENT_X, "x1");
    assert_eq!(*fns.resolve(COMPONENT_X, &[true]), "x");
    assert_eq!(*fns.resolve(COMPONENT_X, &[]), "x");
    assert_eq!(*fns.resolve(COMPONENT_X, &[false, true, true]), "x1");
}

#[test]
fn history_is_that_of_the_winning_marker() {
    let registry = scenario();
    let only_b = snapshot(&[(false, false), (true, true)]);
    assert!(registry.need_history(COMPONENT_X, &only_b));
    assert!(only_b.need_history());

    let both = snapshot(&[(true, false), (true, true)]);
    assert!(!registry.need_history(COMPONENT_X, &both));
    assert!(both.need_history());

    let neither = snapshot(&[(false, false), (false, true)]);
    assert!(!registry.need_history(COMPONENT_X, &neither));
    assert!(!registry.need_history(COMPONENT_Y, &only_b));
}

#[test]
fn dispatch_drops_stale_update_without_history() {
    let registry = scenario();
    let both = snapshot(&[(true, false), (true, true)]);
    let mut order = UpdateOrder::new();
    assert_eq!(registry.dispatch(COMPONENT_X, &both, &mut order, 5), Some(&("write_a", "remove_a")));
    assert_eq!(order.last_tick(), Some(5));
    assert_eq!(registry.dispatch(COMPONENT_X, &both, &mut order, 3), None);
    assert_eq!(order.last_tick(), Some(5));
    assert_eq!(registry.dispatch(COMPONENT_X, &both, &mut order, 6), Some(&("write_a", "remove_a")));
    assert_eq!(order.last_tick(), Some(6));
}

#[test]
fn dispatch_passes_stale_update_to_history_marker() {
    let registry = scenario();
    let only_b = snapshot(&[(false, false), (true, true)]);
    let mut order = UpdateOrder::new();
    assert_eq!(registry.dispatch(COMPONENT_X, &only_b, &mut order, 5), Some(&("write_b", "remove_b")));
    assert_eq!(registry.dispatch(COMPONENT_X, &only_b, &mut order, 3), Some(&("write_b", "remove_b")));
    assert_eq!(order.last_tick(), Some(5));
}
