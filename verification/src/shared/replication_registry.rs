use crate::shared::command_markers::{
    contains_marker, inserted, insertion_index, is_insertion_index, is_marker_id, marker_position,
    CommandMarker, CommandMarkers, EntityMarkers, MarkerConfig,
};
use crate::shared::replication_fns::{
    is_winning_slot, lemma_winning_slot, slot_enabled, winning_slot, ReplicationFns,
};
use crate::shared::update_order::{accepts, after_update, UpdateOrder};
use vstd::prelude::*;

verus! {

/// The replication setup of an application: the registered markers together
/// with the command functions of each component.
///
/// The two are kept in step: slot `i` of a component holds the functions
/// that the marker at index `i` of the registry selects, also after later
/// registrations have moved that marker.
pub struct ReplicationRegistry<F> {
    markers: CommandMarkers,
    fns: ReplicationFns<F>,
}

impl<F> ReplicationRegistry<F> {
    /// The registered markers.
    pub closed spec fn spec_markers(&self) -> &CommandMarkers {
        &self.markers
    }

    /// The command functions.
    pub closed spec fn spec_fns(&self) -> &ReplicationFns<F> {
        &self.fns
    }

    /// The registry's invariant: markers are sorted, the function table is
    /// well formed, and it has one slot per marker.
    pub open spec fn wf(&self) -> bool {
        &&& self.markers().wf()
        &&& self.fns().wf()
        &&& self.fns().marker_slots() == self.markers()@.len()
    }

    /// Whether updates of `component_id` that arrive out of order are
    /// applied on an entity whose markers are `present`: whether the marker
    /// whose functions apply needs history.
    pub open spec fn keeps_history(&self, component_id: usize, present: Seq<bool>) -> bool {
        self.fns().has_component(component_id) && match winning_slot(
            self.fns().marker_fns(component_id),
            present,
        ) {
            Some(slot) => self.markers()@[slot].config.need_history,
            None => false,
        }
    }

    /// What registering `marker` changes: the marker enters the registry at
    /// `index`, behind the markers of the same or a higher priority and
    /// before the lesser ones, and every component gets an empty slot there.
    pub open spec fn registered_after(&self, before: Self, marker: CommandMarker, index: usize) -> bool {
        &&& index == insertion_index(before.markers()@, marker.config.priority)
        &&& is_insertion_index(before.markers()@, marker.config.priority, index as int)
        &&& self.markers()@ == before.markers()@.insert(index as int, marker)
        &&& self.markers()@ == inserted(before.markers()@, marker)
        &&& contains_marker(self.markers()@, marker.component_id)
        &&& forall|c: usize| #[trigger]
            contains_marker(before.markers()@, c) ==> contains_marker(self.markers()@, c)
        &&& self.fns().with_slot(*before.fns(), index as int)
    }

    /// Creates a registry without markers and without components.
    ///
    /// `fallback` holds the functions for components that have none registered.
    pub fn new(fallback: F) -> (registry: Self)
        ensures
            registry.wf(),
            registry.markers()@ == Seq::<CommandMarker>::empty(),
            registry.fns().fallback() == fallback,
            forall|c: usize| !registry.fns().has_component(c),
    {
        ReplicationRegistry { markers: CommandMarkers::default(), fns: ReplicationFns::new(fallback) }
    }

    /// The registered markers.
    #[verifier::when_used_as_spec(spec_markers)]
    pub fn markers(&self) -> (markers: &CommandMarkers)
        ensures
            markers == self.spec_markers(),
    {
        &self.markers
    }

    /// The command functions.
    #[verifier::when_used_as_spec(spec_fns)]
    pub fn fns(&self) -> (fns: &ReplicationFns<F>)
        ensures
            fns == self.spec_fns(),
    {
        &self.fns
    }

    /// Registers a component as a marker with the default configuration.
    pub fn register_marker(&mut self, component_id: usize) -> (index: usize)
        requires
            old(self).wf(),
        ensures
            final(self).wf(),
            final(self).registered_after(
                *old(self),
                CommandMarker {
                    component_id,
                    config: MarkerConfig { priority: 0, need_history: false },
                },
                index,
            ),
    {
        self.register_marker_with(component_id, MarkerConfig::default())
    }

    /// Registers a component as a marker.
    ///
    /// Returns the marker's index in the registry. Markers registered
    /// earlier with a lower priority move up by one, together with the
    /// functions that were set for them.
    pub fn register_marker_with(&mut self, component_id: usize, config: MarkerConfig) -> (index:
        usize)
        requires
            old(self).wf(),
        ensures
            final(self).wf(),
            final(self).registered_after(*old(self), CommandMarker { component_id, config }, index),
    {
        let index = self.markers.insert(CommandMarker { component_id, config });
        let registered = self.markers.len();
        assert(registered == old(self).markers@.len() + 1);
        self.fns.register_marker(index);
        index
    }

    /// Associates command functions with a marker for a component.
    ///
    /// If this marker is present on an entity and no marker before it in the
    /// registry has functions for the component, these functions are used
    /// for the component instead of its default ones.
    ///
    /// The marker must be registered, and the component must have its
    /// default functions set.
    pub fn set_marker_fns(&mut self, marker_component_id: usize, component_id: usize, fns: F)
        requires
            old(self).wf(),
            contains_marker(old(self).markers()@, marker_component_id),
            old(self).fns().has_component(component_id),
        ensures
            final(self).wf(),
            final(self).markers() == old(self).markers(),
            is_marker_id(
                old(self).markers()@,
                marker_component_id,
                marker_position(old(self).markers()@, marker_component_id),
            ),
            final(self).fns().same_except(*old(self).fns(), component_id),
            final(self).fns().has_component(component_id),
            final(self).fns().default_fns(component_id) == old(self).fns().default_fns(component_id),
            final(self).fns().marker_fns(component_id) == old(self).fns().marker_fns(
                component_id,
            ).update(marker_position(old(self).markers()@, marker_component_id), Some(fns)),
    {
        let marker_id = self.markers.marker_id(marker_component_id);
        self.fns.set_marker_fns(marker_id, component_id, fns);
    }

    /// Sets the default functions of a component, used when none of the
    /// markers present on an entity has functions for it.
    pub fn set_command_fns(&mut self, component_id: usize, fns: F)
        requires
            old(self).wf(),
        ensures
            final(self).wf(),
            final(self).markers() == old(self).markers(),
            final(self).fns().same_except(*old(self).fns(), component_id),
            final(self).fns().has_component(component_id),
            final(self).fns().default_fns(component_id) == fns,
            final(self).fns().marker_fns(component_id) == if old(self).fns().has_component(
                component_id,
            ) {
                old(self).fns().marker_fns(component_id)
            } else {
                Seq::new(old(self).markers()@.len(), |slot: int| None::<F>)
            },
    {
        self.fns.set_command_fns(component_id, fns);
    }

    /// Picks the functions that apply to `component_id` on the entity whose
    /// markers `entity_markers` holds.
    pub fn resolve(&self, component_id: usize, entity_markers: &EntityMarkers) -> (fns: &F)
        requires
            self.wf(),
        ensures
            *fns == self.fns().resolved(component_id, entity_markers.spec_markers()),
    {
        self.fns.resolve(component_id, entity_markers.markers())
    }

    /// Whether updates of `component_id` that arrive out of order are
    /// applied on the entity whose markers `entity_markers` holds.
    pub fn need_history(&self, component_id: usize, entity_markers: &EntityMarkers) -> (need_history:
        bool)
        requires
            self.wf(),
        ensures
            need_history == self.keeps_history(component_id, entity_markers.spec_markers()),
    {
        match self.fns.winning_marker(component_id, entity_markers.markers()) {
            Some(slot) => {
                proof {
                    self.fns.lemma_slots(component_id);
                }
                self.markers.get(slot).config.need_history
            },
            None => false,
        }
    }

    /// Decides what happens to an update of `component_id` that was sent at
    /// `tick` for the entity whose markers `entity_markers` holds.
    ///
    /// Returns the functions that apply it, or `None` where the update is
    /// older than one already applied and the component keeps no history.
    /// `order` belongs to this component of this entity and remembers the
    /// update if it is applied.
    pub fn dispatch(
        &self,
        component_id: usize,
        entity_markers: &EntityMarkers,
        order: &mut UpdateOrder,
        tick: u32,
    ) -> (fns: Option<&F>)
        requires
            self.wf(),
        ensures
            fns == if accepts(
                old(order).spec_last_tick(),
                tick,
                self.keeps_history(component_id, entity_markers.spec_markers()),
            ) {
                Some(&self.fns().resolved(component_id, entity_markers.spec_markers()))
            } else {
                None
            },
            final(order).spec_last_tick() == after_update(
                old(order).spec_last_tick(),
                tick,
                self.keeps_history(component_id, entity_markers.spec_markers()),
            ),
    {
        let need_history = self.need_history(component_id, entity_markers);
        if order.accept(tick, need_history) {
            Some(self.resolve(component_id, entity_markers))
        } else {
            None
        }
    }

    /// Functions stay with their marker: when a marker is registered, each
    /// marker registered before is found at its old index, or one further if
    /// it comes behind the new marker, and so are the functions that were set
    /// for it. The new marker has no functions yet.
    pub proof fn lemma_functions_follow_marker(
        &self,
        before: Self,
        marker: CommandMarker,
        index: usize,
        component_id: usize,
        slot: int,
    )
        requires
            before.wf(),
            self.registered_after(before, marker, index),
            before.fns().has_component(component_id),
            0 <= slot < before.markers()@.len(),
        ensures
            self.markers()@[index as int] == marker,
            self.fns().marker_fns(component_id)[index as int] is None,
            self.markers()@[if slot < index {
                slot
            } else {
                slot + 1
            }] == before.markers()@[slot],
            self.fns().marker_fns(component_id)[if slot < index {
                slot
            } else {
                slot + 1
            }] == before.fns().marker_fns(component_id)[slot],
    {
        before.fns().lemma_slots(component_id);
    }

    /// Precedence of markers: where some marker that is present has
    /// functions for a component, the functions used are those of such a
    /// marker with the highest priority, and among several of that priority
    /// those of the one that comes first in the registry.
    ///
    /// `other` is any marker that is present and has functions for the
    /// component; the winner is no later in the registry and of no lower
    /// priority.
    pub proof fn lemma_resolve_prefers_highest_priority(
        &self,
        component_id: usize,
        present: Seq<bool>,
        other: int,
    ) -> (winner: int)
        requires
            self.wf(),
            self.fns().has_component(component_id),
            slot_enabled(self.fns().marker_fns(component_id), present, other),
        ensures
            is_winning_slot(self.fns().marker_fns(component_id), present, winner),
            Some(self.fns().resolved(component_id, present)) == self.fns().marker_fns(
                component_id,
            )[winner],
            winner <= other < self.markers()@.len(),
            self.markers()@[winner].config.priority >= self.markers()@[other].config.priority,
            self.keeps_history(component_id, present)
                == self.markers()@[winner].config.need_history,
    {
        let marker_fns = self.fns().marker_fns(component_id);
        self.fns().lemma_slots(component_id);
        lemma_winning_slot(marker_fns, present);
        let found = winning_slot(marker_fns, present);
        if found is None {
            assert(!slot_enabled(marker_fns, present, other));
        }
        let winner = found->Some_0;
        if other < winner {
            assert(!slot_enabled(marker_fns, present, other));
        }
        winner
    }

    /// Fallbacks: where no marker that is present has functions for a
    /// registered component, its default functions are used; for a component
    /// without registered functions, the fallback. Neither keeps history.
    pub proof fn lemma_resolve_falls_back(&self, component_id: usize, present: Seq<bool>)
        requires
            self.fns().has_component(component_id) ==> forall|slot: int|
                !slot_enabled(self.fns().marker_fns(component_id), present, slot),
        ensures
            self.fns().resolved(component_id, present) == if self.fns().has_component(
                component_id,
            ) {
                self.fns().default_fns(component_id)
            } else {
                self.fns().fallback()
            },
            !self.keeps_history(component_id, present),
    {
        if self.fns().has_component(component_id) {
            let marker_fns = self.fns().marker_fns(component_id);
            lemma_winning_slot(marker_fns, present);
            let found = winning_slot(marker_fns, present);
            if found is Some {
                assert(slot_enabled(marker_fns, present, found->Some_0));
            }
        }
    }
}

} // verus!
