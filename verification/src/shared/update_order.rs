use vstd::prelude::*;

verus! {

/// Whether an update sent at `tick` is applied, where `last` is the send-tick
/// of the newest update applied so far.
///
/// An update older than the newest one applied is discarded, unless the
/// component keeps history.
pub open spec fn accepts(last: Option<u32>, tick: u32, need_history: bool) -> bool {
    need_history || match last {
        Some(applied) => tick >= applied,
        None => true,
    }
}

/// The send-tick of the newest update applied, once the update sent at `tick` was applied.
pub open spec fn advanced(last: Option<u32>, tick: u32) -> Option<u32> {
    match last {
        Some(applied) => if tick > applied {
            Some(tick)
        } else {
            last
        },
        None => Some(tick),
    }
}

/// The send-tick of the newest update applied, once the update sent at `tick` was processed.
pub open spec fn after_update(last: Option<u32>, tick: u32, need_history: bool) -> Option<u32> {
    if accepts(last, tick, need_history) {
        advanced(last, tick)
    } else {
        last
    }
}

/// On a component without history, an update older than one that was applied
/// is never applied, and leaves no trace.
pub proof fn lemma_stale_update_discarded(last: Option<u32>, applied: u32, stale: u32)
    requires
        accepts(last, applied, false),
        stale < applied,
    ensures
        !accepts(after_update(last, applied, false), stale, false),
        after_update(after_update(last, applied, false), stale, false) == after_update(
            last,
            applied,
            false,
        ),
{
}

/// On a component that keeps history, two updates are both applied in
/// whichever order they arrive, and either order leaves the same newest tick.
pub proof fn lemma_history_accepts_any_order(last: Option<u32>, first: u32, second: u32)
    ensures
        accepts(last, first, true),
        accepts(after_update(last, first, true), second, true),
        accepts(last, second, true),
        accepts(after_update(last, second, true), first, true),
        after_update(after_update(last, first, true), second, true) == after_update(
            after_update(last, second, true),
            first,
            true,
        ),
{
}

/// Order of the updates applied to one component of one entity: remembers
/// the send-tick of the newest update applied.
#[derive(Clone, Copy, Debug)]
pub struct UpdateOrder {
    last_tick: Option<u32>,
}

impl UpdateOrder {
    /// The send-tick of the newest update applied, if any was.
    pub closed spec fn spec_last_tick(&self) -> Option<u32> {
        self.last_tick
    }

    /// Starts with no update applied.
    pub fn new() -> (order: Self)
        ensures
            order.spec_last_tick() is None,
    {
        UpdateOrder { last_tick: None }
    }

    /// The send-tick of the newest update applied, if any was.
    pub fn last_tick(&self) -> (last: Option<u32>)
        ensures
            last == self.spec_last_tick(),
    {
        self.last_tick
    }

    /// Decides whether the update sent at `tick` is applied, and remembers it if it is.
    ///
    /// `need_history` tells whether the component accepts updates that
    /// arrive out of order.
    pub fn accept(&mut self, tick: u32, need_history: bool) -> (apply: bool)
        ensures
            apply == accepts(old(self).spec_last_tick(), tick, need_history),
            final(self).spec_last_tick() == after_update(
                old(self).spec_last_tick(),
                tick,
                need_history,
            ),
    {
        match self.last_tick {
            Some(applied) => {
                if tick > applied {
                    self.last_tick = Some(tick);
                    true
                } else {
                    need_history || tick == applied
                }
            },
            None => {
                self.last_tick = Some(tick);
                true
            },
        }
    }
}

} // verus!
