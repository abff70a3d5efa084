use vstd::prelude::*;

verus! {

/// Whether the marker in slot `slot` is present and has functions of its own.
pub open spec fn slot_enabled<F>(marker_fns: Seq<Option<F>>, present: Seq<bool>, slot: int) -> bool {
    &&& 0 <= slot < marker_fns.len()
    &&& slot < present.len()
    &&& present[slot]
    &&& marker_fns[slot] is Some
}

/// Whether `slot` is the first slot whose marker is present and has functions of its own.
pub open spec fn is_winning_slot<F>(
    marker_fns: Seq<Option<F>>,
    present: Seq<bool>,
    slot: int,
) -> bool {
    &&& slot_enabled(marker_fns, present, slot)
    &&& forall|other: int| 0 <= other < slot ==> !slot_enabled(marker_fns, present, other)
}

/// The first slot at or behind `start` whose marker is present and has
/// functions of its own, if there is any.
pub open spec fn first_enabled_from<F>(
    marker_fns: Seq<Option<F>>,
    present: Seq<bool>,
    start: int,
) -> Option<int>
    decreases marker_fns.len() - start,
{
    if start < 0 || start >= marker_fns.len() || start >= present.len() {
        None
    } else if slot_enabled(marker_fns, present, start) {
        Some(start)
    } else {
        first_enabled_from(marker_fns, present, start + 1)
    }
}

/// The slot whose functions are used: the first one whose marker is present
/// and has functions of its own, if there is any.
pub open spec fn winning_slot<F>(marker_fns: Seq<Option<F>>, present: Seq<bool>) -> Option<int> {
    first_enabled_from(marker_fns, present, 0)
}

/// The functions that the slots select, with `default` where no slot wins.
pub open spec fn selected<F>(marker_fns: Seq<Option<F>>, present: Seq<bool>, default: F) -> F {
    match winning_slot(marker_fns, present) {
        Some(slot) => marker_fns[slot]->Some_0,
        None => default,
    }
}

/// What the search from `start` finds: an enabled slot with none between
/// `start` and it, or nothing where no slot from `start` on is enabled.
pub proof fn lemma_first_enabled_from<F>(marker_fns: Seq<Option<F>>, present: Seq<bool>, start: int)
    requires
        0 <= start,
    ensures
        match first_enabled_from(marker_fns, present, start) {
            Some(slot) => start <= slot && slot_enabled(marker_fns, present, slot) && forall|
                other: int,
            | start <= other < slot ==> !slot_enabled(marker_fns, present, other),
            None => forall|other: int| start <= other ==> !slot_enabled(marker_fns, present, other),
        },
    decreases marker_fns.len() - start,
{
    if start < marker_fns.len() && start < present.len() && !slot_enabled(
        marker_fns,
        present,
        start,
    ) {
        lemma_first_enabled_from(marker_fns, present, start + 1);
    }
}

/// The winning slot is the first enabled slot, and there is none exactly
/// where no slot is enabled.
pub proof fn lemma_winning_slot<F>(marker_fns: Seq<Option<F>>, present: Seq<bool>)
    ensures
        match winning_slot(marker_fns, present) {
            Some(slot) => is_winning_slot(marker_fns, present, slot),
            None => forall|slot: int| !slot_enabled(marker_fns, present, slot),
        },
        forall|slot: int| #[trigger]
            is_winning_slot(marker_fns, present, slot) ==> winning_slot(marker_fns, present)
                == Some(slot),
{
    lemma_first_enabled_from(marker_fns, present, 0);
    assert forall|slot: int| #[trigger]
        is_winning_slot(marker_fns, present, slot) implies winning_slot(marker_fns, present)
        == Some(slot) by {
        match winning_slot(marker_fns, present) {
            Some(found) => {
                if found < slot {
                    assert(!slot_enabled(marker_fns, present, found));
                }
                if slot < found {
                    assert(!slot_enabled(marker_fns, present, slot));
                }
            },
            None => {
                assert(!slot_enabled(marker_fns, present, slot));
            },
        }
    }
}

/// Command functions of one component.
struct ComponentFns<F> {
    component_id: usize,
    /// Functions used when no marker with functions of its own is present.
    default: F,
    /// Functions per marker slot, in the order of the marker registry.
    markers: Vec<Option<F>>,
}

/// Command functions for replicated components.
///
/// `F` stands for a pair of functions, one that writes a received value and
/// one that removes the component. The table never calls them: it only
/// decides which pair applies.
pub struct ReplicationFns<F> {
    commands: Vec<ComponentFns<F>>,
    marker_slots: usize,
    fallback: F,
}

impl<F> ReplicationFns<F> {
    /// Number of marker slots that each component has.
    pub closed spec fn marker_slots(&self) -> nat {
        self.marker_slots as nat
    }

    /// The functions used for components that have none registered.
    pub closed spec fn fallback(&self) -> F {
        self.fallback
    }

    /// Whether functions were registered for `component_id`.
    pub closed spec fn has_component(&self, component_id: usize) -> bool {
        exists|i: int| self.holds(i, component_id)
    }

    spec fn holds(&self, i: int, component_id: usize) -> bool {
        0 <= i < self.commands@.len() && self.commands@[i].component_id == component_id
    }

    spec fn index_of(&self, component_id: usize) -> int {
        choose|i: int| self.holds(i, component_id)
    }

    /// The default functions registered for `component_id`.
    pub closed spec fn default_fns(&self, component_id: usize) -> F {
        self.commands@[self.index_of(component_id)].default
    }

    /// The functions registered for `component_id` per marker slot.
    pub closed spec fn marker_fns(&self, component_id: usize) -> Seq<Option<F>> {
        self.commands@[self.index_of(component_id)].markers@
    }

    /// The table's invariant: no component is listed twice, and each has one
    /// slot per registered marker.
    pub closed spec fn wf(&self) -> bool {
        &&& forall|i: int, j: int|
            0 <= i < j < self.commands@.len() ==> self.commands@[i].component_id
                != self.commands@[j].component_id
        &&& forall|i: int|
            0 <= i < self.commands@.len() ==> (#[trigger] self.commands@[i]).markers@.len()
                == self.marker_slots
    }

    /// The functions that apply to `component_id` on an entity whose markers are `present`.
    ///
    /// Those of the first marker that is present and has functions for the
    /// component; else the component's default; else, for a component without
    /// registered functions, the fallback.
    pub open spec fn resolved(&self, component_id: usize, present: Seq<bool>) -> F {
        if self.has_component(component_id) {
            selected(self.marker_fns(component_id), present, self.default_fns(component_id))
        } else {
            self.fallback()
        }
    }

    /// Whether the table differs from `before` at most in what it holds for `component_id`.
    pub open spec fn same_except(&self, before: Self, component_id: usize) -> bool {
        &&& self.marker_slots() == before.marker_slots()
        &&& self.fallback() == before.fallback()
        &&& forall|c: usize|
            c != component_id ==> #[trigger] self.has_component(c) == before.has_component(c)
        &&& forall|c: usize|
            #![trigger self.marker_fns(c)]
            #![trigger self.default_fns(c)]
            c != component_id && before.has_component(c) ==> self.default_fns(c)
                == before.default_fns(c) && self.marker_fns(c) == before.marker_fns(c)
    }

    /// Whether the table is `before` with an empty slot added at `marker_id`
    /// to every component.
    pub open spec fn with_slot(&self, before: Self, marker_id: int) -> bool {
        &&& self.marker_slots() == before.marker_slots() + 1
        &&& self.fallback() == before.fallback()
        &&& forall|c: usize| #[trigger] self.has_component(c) == before.has_component(c)
        &&& forall|c: usize|
            #![trigger self.marker_fns(c)]
            #![trigger self.default_fns(c)]
            before.has_component(c) ==> self.default_fns(c) == before.default_fns(c)
                && self.marker_fns(c) == before.marker_fns(c).insert(marker_id, None)
    }

    /// Each registered component has one slot per marker.
    pub proof fn lemma_slots(&self, component_id: usize)
        requires
            self.wf(),
            self.has_component(component_id),
        ensures
            self.marker_fns(component_id).len() == self.marker_slots(),
    {
        let i = self.index_of(component_id);
        assert(self.holds(i, component_id));
    }

    proof fn lemma_index(&self, i: int)
        requires
            self.wf(),
            0 <= i < self.commands@.len(),
        ensures
            self.has_component(self.commands@[i].component_id),
            self.index_of(self.commands@[i].component_id) == i,
    {
        let id = self.commands@[i].component_id;
        assert(self.holds(i, id));
        let k = self.index_of(id);
        assert(self.holds(k, id));
    }

    /// Creates a table without components and without marker slots.
    pub fn new(fallback: F) -> (fns: Self)
        ensures
            fns.wf(),
            fns.marker_slots() == 0,
            fns.fallback() == fallback,
            forall|component_id: usize| !fns.has_component(component_id),
    {
        let fns = ReplicationFns { commands: Vec::new(), marker_slots: 0, fallback };
        assert forall|component_id: usize| !fns.has_component(component_id) by {
            assert forall|i: int| !fns.holds(i, component_id) by {}
        }
        fns
    }

    fn position(&self, component_id: usize) -> (found: Option<usize>)
        requires
            self.wf(),
        ensures
            match found {
                Some(index) => self.holds(index as int, component_id) && self.index_of(component_id)
                    == index,
                None => !self.has_component(component_id),
            },
    {
        let mut index: usize = 0;
        while index < self.commands.len()
            invariant
                self.wf(),
                index <= self.commands@.len(),
                forall|i: int| 0 <= i < index ==> !self.holds(i, component_id),
            decreases self.commands@.len() - index,
        {
            if self.commands[index].component_id == component_id {
                proof {
                    self.lemma_index(index as int);
                }
                return Some(index);
            }
            index += 1;
        }
        assert forall|i: int| !self.holds(i, component_id) by {}
        None
    }

    /// Whether functions were registered for `component_id`.
    pub fn contains(&self, component_id: usize) -> (found: bool)
        requires
            self.wf(),
        ensures
            found == self.has_component(component_id),
    {
        self.position(component_id).is_some()
    }

    /// Number of marker slots that each component has.
    pub fn slots(&self) -> (slots: usize)
        ensures
            slots == self.marker_slots(),
    {
        self.marker_slots
    }

    /// Adds a slot for a newly registered marker to every component.
    ///
    /// `marker_id` is the marker's index in the registry. Slots at and behind
    /// it move up by one, as the markers in the registry do.
    pub fn register_marker(&mut self, marker_id: usize)
        requires
            old(self).wf(),
            marker_id <= old(self).marker_slots(),
            old(self).marker_slots() < usize::MAX,
        ensures
            final(self).wf(),
            final(self).with_slot(*old(self), marker_id as int),
    {
        let mut index: usize = 0;
        while index < self.commands.len()
            invariant
                old(self).wf(),
                marker_id <= old(self).marker_slots,
                index <= self.commands@.len(),
                self.commands@.len() == old(self).commands@.len(),
                self.marker_slots == old(self).marker_slots,
                self.fallback == old(self).fallback,
                forall|k: int|
                    0 <= k < self.commands@.len() ==> (#[trigger] self.commands@[k]).component_id
                        == old(self).commands@[k].component_id && self.commands@[k].default
                        == old(self).commands@[k].default,
                forall|k: int|
                    0 <= k < index ==> (#[trigger] self.commands@[k]).markers@ == old(
                        self
                    ).commands@[k].markers@.insert(marker_id as int, None),
                forall|k: int|
                    index <= k < self.commands@.len() ==> (#[trigger] self.commands@[k]).markers@
                        == old(self).commands@[k].markers@,
            decreases self.commands@.len() - index,
        {
            self.commands[index].markers.insert(marker_id, None);
            index += 1;
        }
        self.marker_slots += 1;
        proof {
            self.lemma_same_components(*old(self));
            assert forall|c: usize| old(self).has_component(c) implies self.default_fns(c) == old(
                self
            ).default_fns(c) && self.marker_fns(c) == old(self).marker_fns(c).insert(
                marker_id as int,
                None,
            ) by {
                let k = old(self).index_of(c);
                assert(old(self).holds(k, c));
                self.lemma_index(k);
            }
        }
    }

    /// Sets the default functions of a component, used when none of the
    /// markers present on an entity has functions for it.
    ///
    /// A component that is new to the table gets an empty slot per marker.
    pub fn set_command_fns(&mut self, component_id: usize, fns: F)
        requires
            old(self).wf(),
        ensures
            final(self).wf(),
            final(self).same_except(*old(self), component_id),
            final(self).has_component(component_id),
            final(self).default_fns(component_id) == fns,
            final(self).marker_fns(component_id) == if old(self).has_component(component_id) {
                old(self).marker_fns(component_id)
            } else {
                Seq::new(old(self).marker_slots(), |slot: int| None::<F>)
            },
    {
        match self.position(component_id) {
            Some(index) => {
                self.commands[index].default = fns;
                proof {
                    self.lemma_same_components(*old(self));
                    self.lemma_index(index as int);
                    assert forall|c: usize|
                        c != component_id && old(self).has_component(c) implies self.default_fns(c)
                        == old(self).default_fns(c) && self.marker_fns(c) == old(self).marker_fns(
                        c,
                    ) by {
                        let k = old(self).index_of(c);
                        assert(old(self).holds(k, c));
                        self.lemma_index(k);
                    }
                }
            },
            None => {
                let mut markers: Vec<Option<F>> = Vec::with_capacity(self.marker_slots);
                let mut slot: usize = 0;
                while slot < self.marker_slots
                    invariant
                        slot <= self.marker_slots,
                        markers@.len() == slot,
                        forall|k: int| 0 <= k < slot ==> markers@[k] == None::<F>,
                    decreases self.marker_slots - slot,
                {
                    markers.push(None);
                    slot += 1;
                }
                assert(markers@ == Seq::new(self.marker_slots as nat, |slot: int| None::<F>));
                self.commands.push(ComponentFns { component_id, default: fns, markers });
                proof {
                    let last = self.commands@.len() - 1;
                    assert forall|i: int, j: int|
                        0 <= i < j < self.commands@.len() implies self.commands@[i].component_id
                        != self.commands@[j].component_id by {
                        if j == last {
                            assert(old(self).commands@[i] == self.commands@[i]);
                            assert(!old(self).holds(i, component_id));
                        } else {
                            assert(old(self).commands@[i] == self.commands@[i]);
                            assert(old(self).commands@[j] == self.commands@[j]);
                        }
                    }
                    assert forall|i: int| 0 <= i < self.commands@.len() implies (
                    #[trigger] self.commands@[i]).markers@.len() == self.marker_slots by {
                        if i < last {
                            assert(old(self).commands@[i] == self.commands@[i]);
                        }
                    }
                    self.lemma_index(last);
                    assert forall|c: usize| c != component_id implies #[trigger] self.has_component(
                        c,
                    ) == old(self).has_component(c) by {
                        if self.has_component(c) {
                            let k = self.index_of(c);
                            assert(self.holds(k, c));
                            assert(old(self).holds(k, c));
                        }
                        if old(self).has_component(c) {
                            let k = old(self).index_of(c);
                            assert(old(self).holds(k, c));
                            assert(self.holds(k, c));
                        }
                    }
                    assert forall|c: usize|
                        c != component_id && old(self).has_component(c) implies self.default_fns(c)
                        == old(self).default_fns(c) && self.marker_fns(c) == old(self).marker_fns(
                        c,
                    ) by {
                        let k = old(self).index_of(c);
                        assert(old(self).holds(k, c));
                        assert(old(self).commands@[k] == self.commands@[k]);
                        self.lemma_index(k);
                    }
                }
            },
        }
    }

    /// Sets the functions that a marker selects for a component.
    ///
    /// `marker_id` is the marker's current index in the registry. The
    /// component must have its default functions registered before.
    pub fn set_marker_fns(&mut self, marker_id: usize, component_id: usize, fns: F)
        requires
            old(self).wf(),
            old(self).has_component(component_id),
            marker_id < old(self).marker_slots(),
        ensures
            final(self).wf(),
            final(self).same_except(*old(self), component_id),
            final(self).has_component(component_id),
            final(self).default_fns(component_id) == old(self).default_fns(component_id),
            final(self).marker_fns(component_id) == old(self).marker_fns(component_id).update(
                marker_id as int,
                Some(fns),
            ),
    {
        let index = match self.position(component_id) {
            Some(index) => index,
            None => 0,
        };
        self.commands[index].markers[marker_id] = Some(fns);
        proof {
            self.lemma_same_components(*old(self));
            self.lemma_index(index as int);
            assert forall|c: usize|
                c != component_id && old(self).has_component(c) implies self.default_fns(c) == old(
                self
            ).default_fns(c) && self.marker_fns(c) == old(self).marker_fns(c) by {
                let k = old(self).index_of(c);
                assert(old(self).holds(k, c));
                self.lemma_index(k);
            }
        }
    }

    /// The slot of the marker whose functions apply to `component_id` on an
    /// entity whose markers are `present`, if any marker's do.
    pub fn winning_marker(&self, component_id: usize, present: &[bool]) -> (winner: Option<usize>)
        requires
            self.wf(),
        ensures
            match winner {
                Some(slot) => self.has_component(component_id) && winning_slot(
                    self.marker_fns(component_id),
                    present@,
                ) == Some(slot as int) && is_winning_slot(
                    self.marker_fns(component_id),
                    present@,
                    slot as int,
                ),
                None => self.has_component(component_id) ==> winning_slot(
                    self.marker_fns(component_id),
                    present@,
                ) is None && forall|slot: int|
                    !slot_enabled(self.marker_fns(component_id), present@, slot),
            },
    {
        match self.position(component_id) {
            None => None,
            Some(index) => {
                let entry = &self.commands[index];
                let mut slot: usize = 0;
                while slot < entry.markers.len() && slot < present.len()
                    invariant
                        self.has_component(component_id),
                        entry.markers@ == self.marker_fns(component_id),
                        slot <= entry.markers@.len(),
                        slot <= present@.len(),
                        forall|k: int| 0 <= k < slot ==> !slot_enabled(entry.markers@, present@, k),
                    decreases entry.markers@.len() - slot,
                {
                    if present[slot] && entry.markers[slot].is_some() {
                        proof {
                            lemma_winning_slot(entry.markers@, present@);
                            assert(is_winning_slot(entry.markers@, present@, slot as int));
                        }
                        return Some(slot);
                    }
                    slot += 1;
                }
                proof {
                    assert forall|k: int| !slot_enabled(entry.markers@, present@, k) by {}
                    lemma_winning_slot(entry.markers@, present@);
                    if winning_slot(entry.markers@, present@) is Some {
                        assert(slot_enabled(
                            entry.markers@,
                            present@,
                            winning_slot(entry.markers@, present@)->Some_0,
                        ));
                    }
                }
                None
            },
        }
    }

    /// Picks the functions that apply to `component_id` on an entity whose
    /// markers are `present`.
    ///
    /// Never fails: where no marker's functions apply, the component's
    /// default is returned, and for a component without registered functions
    /// the fallback.
    pub fn resolve(&self, component_id: usize, present: &[bool]) -> (fns: &F)
        requires
            self.wf(),
        ensures
            *fns == self.resolved(component_id, present@),
    {
        match self.position(component_id) {
            None => &self.fallback,
            Some(index) => {
                let entry = &self.commands[index];
                match self.winning_marker(component_id, present) {
                    Some(slot) => match &entry.markers[slot] {
                        Some(fns) => fns,
                        None => &entry.default,
                    },
                    None => &entry.default,
                }
            },
        }
    }

    proof fn lemma_same_components(&self, before: Self)
        requires
            before.wf(),
            self.commands@.len() == before.commands@.len(),
            forall|k: int|
                0 <= k < self.commands@.len() ==> (#[trigger] self.commands@[k]).component_id
                    == before.commands@[k].component_id,
        ensures
            forall|c: usize| #[trigger] self.has_component(c) == before.has_component(c),
            forall|i: int, j: int|
                0 <= i < j < self.commands@.len() ==> self.commands@[i].component_id
                    != self.commands@[j].component_id,
    {
        assert forall|c: usize| #[trigger] self.has_component(c) == before.has_component(c) by {
            if self.has_component(c) {
                let k = self.index_of(c);
                assert(self.holds(k, c));
                assert(before.holds(k, c));
            }
            if before.has_component(c) {
                let k = before.index_of(c);
                assert(before.holds(k, c));
                assert(self.holds(k, c));
            }
        }
    }
}

} // verus!
