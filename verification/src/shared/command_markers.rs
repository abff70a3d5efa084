use bevy::ecs::component::ComponentId;
use bevy::ecs::world::EntityRef;
use vstd::prelude::*;

verus! {

/// Parameters for a marker.
#[derive(Clone, Copy, Debug)]
pub struct MarkerConfig {
    /// Priority of this marker.
    ///
    /// Markers are kept sorted by priority, and if several markers match, the
    /// one with the highest priority is used. `0` by default.
    pub priority: usize,
    /// Whether the marker needs to process old updates.
    ///
    /// Updates travel over an unreliable channel, so an older update may
    /// arrive after a newer one. Such updates are discarded unless this is
    /// `true`. `false` by default.
    pub need_history: bool,
}

impl Default for MarkerConfig {
    fn default() -> (config: Self)
        ensures
            config.priority == 0,
            !config.need_history,
    {
        MarkerConfig { priority: 0, need_history: false }
    }
}

/// A registered marker: the component that serves as the tag, and its parameters.
#[derive(Clone, Copy, Debug)]
pub struct CommandMarker {
    /// Index of the marker's component id.
    pub component_id: usize,
    /// User-registered configuration.
    pub config: MarkerConfig,
}

/// Whether `markers` is ordered by priority, highest first.
pub open spec fn sorted_by_priority(markers: Seq<CommandMarker>) -> bool {
    forall|i: int, j: int|
        0 <= i <= j < markers.len() ==> markers[i].config.priority >= markers[j].config.priority
}

/// Number of leading markers whose priority is at least `priority`.
///
/// In a sorted registry this is where a marker of that priority goes: behind
/// every marker that is at least as important, before every lesser one.
pub open spec fn insertion_index(markers: Seq<CommandMarker>, priority: usize) -> nat
    decreases markers.len(),
{
    if markers.len() == 0 || markers[0].config.priority < priority {
        0
    } else {
        1 + insertion_index(markers.drop_first(), priority)
    }
}

/// Whether `index` parts `markers` into those of at least `priority` and the lesser ones.
pub open spec fn is_insertion_index(
    markers: Seq<CommandMarker>,
    priority: usize,
    index: int,
) -> bool {
    &&& 0 <= index <= markers.len()
    &&& forall|j: int| 0 <= j < index ==> markers[j].config.priority >= priority
    &&& forall|j: int| index <= j < markers.len() ==> markers[j].config.priority < priority
}

/// The registry after `marker` was added to `markers`.
pub open spec fn inserted(markers: Seq<CommandMarker>, marker: CommandMarker) -> Seq<
    CommandMarker,
> {
    markers.insert(insertion_index(markers, marker.config.priority) as int, marker)
}

/// Whether some marker in `markers` has the component `component_id`.
pub open spec fn contains_marker(markers: Seq<CommandMarker>, component_id: usize) -> bool {
    exists|i: int| 0 <= i < markers.len() && markers[i].component_id == component_id
}

/// Whether `index` is the first position in `markers` held by `component_id`.
pub open spec fn is_marker_id(markers: Seq<CommandMarker>, component_id: usize, index: int) -> bool {
    &&& 0 <= index < markers.len()
    &&& markers[index].component_id == component_id
    &&& forall|j: int| 0 <= j < index ==> markers[j].component_id != component_id
}

/// The first position in `markers` held by `component_id`.
pub open spec fn marker_position(markers: Seq<CommandMarker>, component_id: usize) -> int {
    choose|index: int| is_marker_id(markers, component_id, index)
}

/// The first position held by a component is the marker's position.
pub proof fn lemma_marker_position(markers: Seq<CommandMarker>, component_id: usize, index: int)
    requires
        is_marker_id(markers, component_id, index),
    ensures
        marker_position(markers, component_id) == index,
{
    let chosen = marker_position(markers, component_id);
    assert(is_marker_id(markers, component_id, chosen));
}

/// An index that parts the markers by `priority` is the insertion index.
pub proof fn lemma_insertion_index_unique(
    markers: Seq<CommandMarker>,
    priority: usize,
    index: int,
)
    requires
        is_insertion_index(markers, priority, index),
    ensures
        index == insertion_index(markers, priority),
    decreases markers.len(),
{
    if index > 0 {
        let rest = markers.drop_first();
        assert forall|j: int| 0 <= j < index - 1 implies rest[j].config.priority >= priority by {
            assert(rest[j] == markers[j + 1]);
        }
        assert forall|j: int| index - 1 <= j < rest.len() implies rest[j].config.priority
            < priority by {
            assert(rest[j] == markers[j + 1]);
        }
        assert(markers[0].config.priority >= priority);
        lemma_insertion_index_unique(rest, priority, index - 1);
    }
}

/// In a sorted registry the insertion index parts the markers by `priority`.
pub proof fn lemma_insertion_index_parts(markers: Seq<CommandMarker>, priority: usize)
    requires
        sorted_by_priority(markers),
    ensures
        is_insertion_index(markers, priority, insertion_index(markers, priority) as int),
    decreases markers.len(),
{
    if markers.len() == 0 {
    } else if markers[0].config.priority < priority {
        assert forall|j: int| 0 <= j < markers.len() implies markers[j].config.priority
            < priority by {
            assert(markers[0].config.priority >= markers[j].config.priority);
        }
    } else {
        let rest = markers.drop_first();
        assert forall|i: int, j: int| 0 <= i <= j < rest.len() implies rest[i].config.priority
            >= rest[j].config.priority by {
            assert(rest[i] == markers[i + 1]);
            assert(rest[j] == markers[j + 1]);
        }
        lemma_insertion_index_parts(rest, priority);
        let index = insertion_index(markers, priority) as int;
        assert forall|j: int| 0 <= j < index implies markers[j].config.priority >= priority by {
            if j > 0 {
                assert(rest[j - 1] == markers[j]);
            }
        }
        assert forall|j: int| index <= j < markers.len() implies markers[j].config.priority
            < priority by {
            assert(rest[j - 1] == markers[j]);
        }
    }
}

/// Adding a marker to a sorted registry leaves it sorted.
pub proof fn lemma_inserted_sorted(markers: Seq<CommandMarker>, marker: CommandMarker)
    requires
        sorted_by_priority(markers),
    ensures
        sorted_by_priority(inserted(markers, marker)),
{
    lemma_insertion_index_parts(markers, marker.config.priority);
    let index = insertion_index(markers, marker.config.priority) as int;
    let after = inserted(markers, marker);
    assert forall|i: int, j: int| 0 <= i <= j < after.len() implies after[i].config.priority
        >= after[j].config.priority by {
        if i < index && j > index {
            assert(after[i] == markers[i]);
            assert(after[j] == markers[j - 1]);
        } else if i > index {
            assert(after[i] == markers[i - 1]);
            assert(after[j] == markers[j - 1]);
        } else if j < index {
            assert(after[i] == markers[i]);
            assert(after[j] == markers[j]);
        } else if i == index && j > index {
            assert(after[j] == markers[j - 1]);
        } else if i < index && j == index {
            assert(after[i] == markers[i]);
        }
    }
}

/// Adding a marker makes its component a marker and keeps the others.
pub proof fn lemma_inserted_contains(markers: Seq<CommandMarker>, marker: CommandMarker)
    requires
        sorted_by_priority(markers),
    ensures
        contains_marker(inserted(markers, marker), marker.component_id),
        forall|component_id: usize| #[trigger]
            contains_marker(markers, component_id) ==> contains_marker(
                inserted(markers, marker),
                component_id,
            ),
{
    lemma_insertion_index_parts(markers, marker.config.priority);
    let index = insertion_index(markers, marker.config.priority) as int;
    let after = inserted(markers, marker);
    assert(after[index] == marker);
    assert forall|component_id: usize| #[trigger]
        contains_marker(markers, component_id) implies contains_marker(after, component_id) by {
        let i = choose|i: int| 0 <= i < markers.len() && markers[i].component_id == component_id;
        if i < index {
            assert(after[i] == markers[i]);
        } else {
            assert(after[i + 1] == markers[i]);
        }
    }
}

/// The registry that results from registering `registrations` one after another.
pub open spec fn registered(registrations: Seq<CommandMarker>) -> Seq<CommandMarker>
    decreases registrations.len(),
{
    if registrations.len() == 0 {
        Seq::empty()
    } else {
        inserted(registered(registrations.drop_last()), registrations.last())
    }
}

/// The test that picks the markers of one priority.
pub open spec fn has_priority(priority: usize) -> spec_fn(CommandMarker) -> bool {
    |marker: CommandMarker| marker.config.priority == priority
}

proof fn lemma_filter_none(markers: Seq<CommandMarker>, priority: usize)
    requires
        forall|i: int| 0 <= i < markers.len() ==> markers[i].config.priority != priority,
    ensures
        markers.filter(has_priority(priority)) == Seq::<CommandMarker>::empty(),
    decreases markers.len(),
{
    reveal(Seq::filter);
    if markers.len() > 0 {
        lemma_filter_none(markers.drop_last(), priority);
    }
}

proof fn lemma_inserted_filter(markers: Seq<CommandMarker>, marker: CommandMarker, priority: usize)
    requires
        sorted_by_priority(markers),
    ensures
        inserted(markers, marker).filter(has_priority(priority)) == if marker.config.priority
            == priority {
            markers.filter(has_priority(priority)).push(marker)
        } else {
            markers.filter(has_priority(priority))
        },
{
    lemma_insertion_index_parts(markers, marker.config.priority);
    let index = insertion_index(markers, marker.config.priority) as int;
    let pred = has_priority(priority);
    let head = markers.take(index);
    let tail = markers.skip(index);
    let single = seq![marker];
    assert(markers == head + tail);
    assert(inserted(markers, marker) == head + single + tail);
    Seq::filter_distributes_over_add(head, tail, pred);
    Seq::filter_distributes_over_add(head + single, tail, pred);
    Seq::filter_distributes_over_add(head, single, pred);
    assert(single.filter(pred) == if pred(marker) {
        single
    } else {
        Seq::<CommandMarker>::empty()
    }) by {
        reveal(Seq::filter);
        assert(single.drop_last() == Seq::<CommandMarker>::empty());
        assert(single.drop_last().filter(pred) == Seq::<CommandMarker>::empty());
        assert(single.last() == marker);
    }
    if marker.config.priority == priority {
        lemma_filter_none(tail, priority);
        assert(head.filter(pred) + single + Seq::<CommandMarker>::empty() == head.filter(
            pred,
        ).push(marker));
        assert(head.filter(pred) + Seq::<CommandMarker>::empty() == head.filter(pred));
    } else {
        assert(head.filter(pred) + Seq::<CommandMarker>::empty() == head.filter(pred));
    }
}

/// Registration order: however markers are registered, the registry lists
/// them by priority, highest first, and those of one priority in the order in
/// which they were registered.
///
/// The second is stated for each priority: the registry's markers of that
/// priority are the registered markers of that priority, in the same order.
pub proof fn lemma_registration_order(registrations: Seq<CommandMarker>, priority: usize)
    ensures
        registered(registrations).len() == registrations.len(),
        sorted_by_priority(registered(registrations)),
        registered(registrations).filter(has_priority(priority)) == registrations.filter(
            has_priority(priority),
        ),
    decreases registrations.len(),
{
    reveal(Seq::filter);
    if registrations.len() > 0 {
        let before = registrations.drop_last();
        lemma_registration_order(before, priority);
        lemma_insertion_index_parts(registered(before), registrations.last().config.priority);
        lemma_inserted_sorted(registered(before), registrations.last());
        lemma_inserted_filter(registered(before), registrations.last(), priority);
    }
}

/// Registered markers that override command functions if present.
///
/// Kept sorted by priority in descending order; markers of equal priority
/// stay in the order in which they were registered.
pub struct CommandMarkers {
    markers: Vec<CommandMarker>,
}

impl View for CommandMarkers {
    type V = Seq<CommandMarker>;

    closed spec fn view(&self) -> Seq<CommandMarker> {
        self.markers@
    }
}

impl Default for CommandMarkers {
    fn default() -> (markers: Self)
        ensures
            markers@ == Seq::<CommandMarker>::empty(),
            markers.wf(),
    {
        CommandMarkers { markers: Vec::new() }
    }
}

impl CommandMarkers {
    /// The registry's invariant: markers are sorted by descending priority.
    pub open spec fn wf(&self) -> bool {
        sorted_by_priority(self@)
    }

    /// Number of registered markers.
    pub fn len(&self) -> (len: usize)
        ensures
            len == self@.len(),
    {
        self.markers.len()
    }

    /// The marker at `index`, in registry order.
    pub fn get(&self, index: usize) -> (marker: &CommandMarker)
        requires
            index < self@.len(),
        ensures
            *marker == self@[index as int],
    {
        &self.markers[index]
    }

    /// Inserts a new marker, maintaining sorting by priority in descending order.
    ///
    /// The marker goes behind every registered marker of the same or a higher
    /// priority. Markers behind it move up by one, so an index returned
    /// earlier may no longer name the same marker.
    pub fn insert(&mut self, marker: CommandMarker) -> (index: usize)
        requires
            old(self).wf(),
        ensures
            final(self).wf(),
            index == insertion_index(old(self)@, marker.config.priority),
            is_insertion_index(old(self)@, marker.config.priority, index as int),
            index > 0 ==> old(self)@[index - 1].config.priority >= marker.config.priority,
            index < old(self)@.len() ==> old(self)@[index as int].config.priority
                < marker.config.priority,
            final(self)@ == old(self)@.insert(index as int, marker),
            final(self)@ == inserted(old(self)@, marker),
            contains_marker(final(self)@, marker.component_id),
            forall|component_id: usize| #[trigger]
                contains_marker(old(self)@, component_id) ==> contains_marker(
                    final(self)@,
                    component_id,
                ),
    {
        let priority = marker.config.priority;
        let mut low: usize = 0;
        let mut high: usize = self.markers.len();
        while low < high
            invariant
                low <= high <= self.markers@.len(),
                *self == *old(self),
                sorted_by_priority(self.markers@),
                forall|j: int| 0 <= j < low ==> self.markers@[j].config.priority >= priority,
                forall|j: int|
                    high <= j < self.markers@.len() ==> self.markers@[j].config.priority < priority,
            decreases high - low,
        {
            let mid = low + (high - low) / 2;
            if self.markers[mid].config.priority >= priority {
                low = mid + 1;
            } else {
                high = mid;
            }
        }
        proof {
            lemma_insertion_index_unique(self@, priority, low as int);
            lemma_inserted_sorted(self@, marker);
            lemma_inserted_contains(self@, marker);
        }
        self.markers.insert(low, marker);
        low
    }

    /// Looks for the marker with the component `component_id`.
    ///
    /// Returns the position of the first such marker, or `None` if the
    /// component was never registered as a marker.
    pub fn find(&self, component_id: usize) -> (found: Option<usize>)
        ensures
            match found {
                Some(index) => is_marker_id(self@, component_id, index as int) && index
                    == marker_position(self@, component_id),
                None => !contains_marker(self@, component_id),
            },
    {
        let mut index: usize = 0;
        while index < self.markers.len()
            invariant
                index <= self.markers@.len(),
                forall|j: int| 0 <= j < index ==> self.markers@[j].component_id != component_id,
            decreases self.markers@.len() - index,
        {
            if self.markers[index].component_id == component_id {
                proof {
                    lemma_marker_position(self@, component_id, index as int);
                }
                return Some(index);
            }
            index += 1;
        }
        None
    }

    /// Returns the marker index of a registered marker from its component id.
    ///
    /// The component must have been registered as a marker.
    pub fn marker_id(&self, component_id: usize) -> (index: usize)
        requires
            contains_marker(self@, component_id),
        ensures
            is_marker_id(self@, component_id, index as int),
            index == marker_position(self@, component_id),
    {
        match self.find(component_id) {
            Some(index) => index,
            None => 0,
        }
    }

    /// Which markers need history, in registry order.
    pub fn iter_require_history(&self) -> (flags: Vec<bool>)
        ensures
            flags@.len() == self@.len(),
            forall|i: int| 0 <= i < self@.len() ==> flags@[i] == self@[i].config.need_history,
    {
        let mut flags: Vec<bool> = Vec::with_capacity(self.markers.len());
        let mut index: usize = 0;
        while index < self.markers.len()
            invariant
                index <= self.markers@.len(),
                flags@.len() == index,
                forall|i: int| 0 <= i < index ==> flags@[i] == self.markers@[i].config.need_history,
            decreases self.markers@.len() - index,
        {
            flags.push(self.markers[index].config.need_history);
            index += 1;
        }
        flags
    }
}

/// Makes bevy's `EntityRef`, a read-only view of one entity, known as an
/// opaque type: nothing is said of what is inside.
#[verifier::external_type_specification]
#[verifier::external_body]
pub struct ExEntityRef<'w>(EntityRef<'w>);

/// Whether the entity that `entity` looks at carries the component `component_id`.
pub uninterp spec fn entity_contains(entity: EntityRef<'_>, component_id: usize) -> bool;

/// Calls `EntityRef::contains_id` with the id that `ComponentId::new` makes of `component_id`.
///
/// The call looks the id up in the entity's archetype and changes nothing, so
/// its result depends on the entity view and the index alone;
/// [`entity_contains`] is the name of that result.
#[verifier::external_body]
fn contains_id(entity: &EntityRef<'_>, component_id: usize) -> (contains: bool)
    ensures
        contains == entity_contains(*entity, component_id),
{
    entity.contains_id(ComponentId::new(component_id))
}

/// For each marker in registry order, whether the entity carries it.
pub open spec fn presence(markers: Seq<CommandMarker>, entity: EntityRef<'_>) -> Seq<bool> {
    Seq::new(markers.len(), |i: int| entity_contains(entity, markers[i].component_id))
}

/// Whether some marker that is present needs history.
pub open spec fn any_need_history(markers: Seq<CommandMarker>, present: Seq<bool>) -> bool {
    exists|i: int|
        0 <= i < markers.len() && i < present.len() && present[i] && markers[i].config.need_history
}

/// Stores which markers are present on an entity.
///
/// Filled anew for each entity whose update is being processed.
pub struct EntityMarkers {
    markers: Vec<bool>,
    need_history: bool,
}

impl EntityMarkers {
    /// Presence of each marker, in registry order.
    pub closed spec fn spec_markers(&self) -> Seq<bool> {
        self.markers@
    }

    /// Whether at least one marker that is present needs history.
    pub closed spec fn spec_need_history(&self) -> bool {
        self.need_history
    }

    /// Creates an empty snapshot with room for one entry per registered marker.
    pub fn new(markers: &CommandMarkers) -> (entity_markers: Self)
        ensures
            entity_markers.spec_markers() == Seq::<bool>::empty(),
            !entity_markers.spec_need_history(),
    {
        EntityMarkers { markers: Vec::with_capacity(markers.len()), need_history: false }
    }

    /// Forgets the markers of the previous entity.
    pub fn clear(&mut self)
        ensures
            final(self).spec_markers() == Seq::<bool>::empty(),
            !final(self).spec_need_history(),
    {
        self.markers.clear();
        self.need_history = false;
    }

    /// Records the outcome of probing the entity for the next marker in registry order.
    ///
    /// `contains` tells whether the entity carries the marker, `need_history`
    /// is the marker's own setting.
    pub fn record(&mut self, contains: bool, need_history: bool)
        ensures
            final(self).spec_markers() == old(self).spec_markers().push(contains),
            final(self).spec_need_history() == (old(self).spec_need_history() || (contains
                && need_history)),
    {
        self.markers.push(contains);
        if contains && need_history {
            self.need_history = true;
        }
    }

    /// Rebuilds the snapshot for `entity`: probes it once for each registered marker.
    pub fn read(&mut self, markers: &CommandMarkers, entity: EntityRef<'_>)
        ensures
            final(self).spec_markers() == presence(markers@, entity),
            final(self).spec_need_history() == any_need_history(
                markers@,
                presence(markers@, entity),
            ),
    {
        self.clear();
        let mut index: usize = 0;
        while index < markers.len()
            invariant
                index <= markers@.len(),
                self.spec_markers() == presence(markers@, entity).take(index as int),
                self.spec_need_history() == any_need_history(
                    markers@.take(index as int),
                    presence(markers@, entity),
                ),
            decreases markers@.len() - index,
        {
            let marker = markers.get(index);
            let contains = contains_id(&entity, marker.component_id);
            self.record(contains, marker.config.need_history);
            proof {
                let present = presence(markers@, entity);
                assert(present.take(index as int).push(contains) == present.take(index + 1));
                let before = markers@.take(index as int);
                let after = markers@.take(index + 1);
                if any_need_history(before, present) {
                    let i = choose|i: int|
                        0 <= i < before.len() && i < present.len() && present[i]
                            && before[i].config.need_history;
                    assert(after[i] == before[i]);
                }
                if contains && marker.config.need_history {
                    assert(after[index as int] == markers@[index as int]);
                    assert(present[index as int]);
                }
                if any_need_history(after, present) {
                    let i = choose|i: int|
                        0 <= i < after.len() && i < present.len() && present[i]
                            && after[i].config.need_history;
                    if i < index {
                        assert(before[i] == after[i]);
                    }
                }
            }
            index += 1;
        }
        proof {
            assert(markers@.take(index as int) == markers@);
            assert(presence(markers@, entity).take(index as int) == presence(markers@, entity));
        }
    }

    /// Returns which markers are present on the entity.
    ///
    /// Indices correspond to the markers in [`CommandMarkers`].
    pub fn markers(&self) -> (markers: &[bool])
        ensures
            markers@ == self.spec_markers(),
    {
        self.markers.as_slice()
    }

    /// Returns `true` if the entity has at least one marker that needs history.
    pub fn need_history(&self) -> (need_history: bool)
        ensures
            need_history == self.spec_need_history(),
    {
        self.need_history
    }
}

} // verus!
