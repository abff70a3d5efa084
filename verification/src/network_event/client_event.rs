use crate::shared::ClientId;
use vstd::prelude::*;

verus! {

/// An event indicating that a message from client was received.
/// Emitted only on server.
#[derive(Clone, Copy, Debug)]
pub struct FromClient<T> {
    pub client_id: ClientId,
    pub event: T,
}

/// The received events that stand for locally raised `events`: one per
/// event, in the same order, each sent by the server itself.
pub open spec fn local_envelopes<T>(events: Seq<T>) -> Seq<FromClient<T>> {
    Seq::new(events.len(), |i: int| FromClient { client_id: ClientId::server(), event: events[i] })
}

/// Discards all pending events.
///
/// Events are discarded when the connection drops, so that a client that
/// connects again starts without a backlog. Returns how many were discarded.
pub fn reset<T>(events: &mut Vec<T>) -> (discarded: usize)
    ensures
        final(events)@ == Seq::<T>::empty(),
        discarded == old(events)@.len(),
{
    let discarded = events.len();
    events.clear();
    discarded
}

/// Transforms `T` events into [`FromClient<T>`] events to "emulate"
/// message sending for offline mode or when server is also a player.
pub fn resend_locally<T>(events: &mut Vec<T>, client_events: &mut Vec<FromClient<T>>)
    ensures
        final(events)@ == Seq::<T>::empty(),
        final(client_events)@ == old(client_events)@ + local_envelopes(old(events)@),
{
    let mut drained: Vec<T> = Vec::new();
    drained.append(events);
    let ghost before = client_events@;
    for event in it: drained
        invariant
            client_events@ == before + local_envelopes(it.seq().take(it.index() as int)),
    {
        client_events.push(FromClient { client_id: ClientId::server(), event });
    }
}

/// The received events that `results` give: one for each message that was
/// deserialized, in the order of arrival, with the sender of the message.
pub open spec fn delivered<T, E>(results: Seq<(ClientId, Result<T, E>)>) -> Seq<FromClient<T>>
    decreases results.len(),
{
    if results.len() == 0 {
        Seq::empty()
    } else {
        let rest = delivered(results.drop_last());
        match results.last().1 {
            Ok(event) => rest.push(FromClient { client_id: results.last().0, event }),
            Err(_) => rest,
        }
    }
}

/// The errors among `results`, in the order of arrival, each with the sender of the message.
pub open spec fn rejected<T, E>(results: Seq<(ClientId, Result<T, E>)>) -> Seq<(ClientId, E)>
    decreases results.len(),
{
    if results.len() == 0 {
        Seq::empty()
    } else {
        let rest = rejected(results.drop_last());
        match results.last().1 {
            Ok(_) => rest,
            Err(error) => rest.push((results.last().0, error)),
        }
    }
}

/// Turns deserialized messages into received events.
///
/// Each entry of `results` holds the sender of one message and what
/// deserializing it gave. A message that failed is dropped and does not
/// keep the others from being delivered; its error is handed back with the
/// sender, for a diagnostic.
pub fn deliver<T, E>(
    results: Vec<(ClientId, Result<T, E>)>,
    client_events: &mut Vec<FromClient<T>>,
) -> (failures: Vec<(ClientId, E)>)
    ensures
        final(client_events)@ == old(client_events)@ + delivered(results@),
        failures@ == rejected(results@),
{
    let mut failures: Vec<(ClientId, E)> = Vec::new();
    let ghost before = client_events@;
    let ghost all = results@;
    for pair in it: results
        invariant
            it.seq() == all,
            client_events@ == before + delivered(all.take(it.index() as int)),
            failures@ == rejected(all.take(it.index() as int)),
    {
        proof {
            let done = all.take(it.index() as int);
            let next = all.take(it.index() + 1);
            assert(next.drop_last() == done);
            assert(next.last() == pair);
        }
        let (client_id, result) = pair;
        match result {
            Ok(event) => {
                client_events.push(FromClient { client_id, event });
            },
            Err(error) => {
                failures.push((client_id, error));
            },
        }
    }
    proof {
        assert(all.take(all.len() as int) == all);
    }
    failures
}

/// Whether `results` holds, for each of `messages` in order, its sender and
/// an outcome of deserializing it with `deserialize`.
pub open spec fn deserialized<T, M, E, D: Fn(M) -> Result<T, E>>(
    deserialize: D,
    messages: Seq<(ClientId, M)>,
    results: Seq<(ClientId, Result<T, E>)>,
) -> bool {
    &&& results.len() == messages.len()
    &&& forall|i: int|
        0 <= i < messages.len() ==> (#[trigger] results[i]).0 == messages[i].0 && call_ensures(
            deserialize,
            (messages[i].1,),
            results[i].1,
        )
}

/// Deserializes the messages that arrived on a channel and emits a received
/// event for each one that could be deserialized.
///
/// `messages` holds each message with its sender. A message that fails to
/// deserialize is dropped; the others are still delivered. The errors are
/// handed back with the senders.
pub fn receive<T, M, E, D: Fn(M) -> Result<T, E>>(
    messages: Vec<(ClientId, M)>,
    deserialize: D,
    client_events: &mut Vec<FromClient<T>>,
) -> (failures: Vec<(ClientId, E)>)
    requires
        forall|i: int|
            0 <= i < messages@.len() ==> call_requires(deserialize, ((#[trigger] messages@[i]).1,)),
    ensures
        exists|results: Seq<(ClientId, Result<T, E>)>|
            #![trigger deserialized(deserialize, messages@, results)]
            deserialized(deserialize, messages@, results) && final(client_events)@ == old(client_events)@
                + delivered(results) && failures@ == rejected(results),
{
    let mut results: Vec<(ClientId, Result<T, E>)> = Vec::with_capacity(messages.len());
    let ghost all = messages@;
    for pair in it: messages
        invariant
            it.seq() == all,
            forall|i: int|
                0 <= i < all.len() ==> call_requires(deserialize, ((#[trigger] all[i]).1,)),
            deserialized(deserialize, all.take(it.index() as int), results@),
    {
        let (client_id, message) = pair;
        let result = deserialize(message);
        results.push((client_id, result));
    }
    proof {
        assert(all.take(all.len() as int) == all);
    }
    let ghost decoded = results@;
    let failures = deliver(results, client_events);
    assert(deserialized(deserialize, all, decoded));
    failures
}

/// The messages that `results` give: one for each event that was
/// serialized, in the order of the events, with the channel to send it on.
pub open spec fn sent<M, E>(channel_id: u8, results: Seq<Result<M, E>>) -> Seq<(u8, M)>
    decreases results.len(),
{
    if results.len() == 0 {
        Seq::empty()
    } else {
        let rest = sent(channel_id, results.drop_last());
        match results.last() {
            Ok(message) => rest.push((channel_id, message)),
            Err(_) => rest,
        }
    }
}

/// The errors among `results`, in the order of the events.
pub open spec fn unsent<M, E>(results: Seq<Result<M, E>>) -> Seq<E>
    decreases results.len(),
{
    if results.len() == 0 {
        Seq::empty()
    } else {
        let rest = unsent(results.drop_last());
        match results.last() {
            Ok(_) => rest,
            Err(error) => rest.push(error),
        }
    }
}

/// Turns serialized events into messages for the transport.
///
/// Each entry of `results` is what serializing one event gave. Returns the
/// messages, each with `channel_id`, and the errors of the events that
/// could not be serialized; those events are left out.
pub fn outgoing<M, E>(channel_id: u8, results: Vec<Result<M, E>>) -> (batch: (
    Vec<(u8, M)>,
    Vec<E>,
))
    ensures
        batch.0@ == sent(channel_id, results@),
        batch.1@ == unsent(results@),
{
    let mut messages: Vec<(u8, M)> = Vec::new();
    let mut failures: Vec<E> = Vec::new();
    let ghost all = results@;
    for result in it: results
        invariant
            it.seq() == all,
            messages@ == sent(channel_id, all.take(it.index() as int)),
            failures@ == unsent(all.take(it.index() as int)),
    {
        proof {
            let done = all.take(it.index() as int);
            let next = all.take(it.index() + 1);
            assert(next.drop_last() == done);
            assert(next.last() == result);
        }
        match result {
            Ok(message) => {
                messages.push((channel_id, message));
            },
            Err(error) => {
                failures.push(error);
            },
        }
    }
    proof {
        assert(all.take(all.len() as int) == all);
    }
    (messages, failures)
}

/// Whether `results` holds, for each of `events` in order, an outcome of
/// serializing it with `serialize`.
pub open spec fn serialized<T, M, E, S: Fn(&T) -> Result<M, E>>(
    serialize: S,
    events: Seq<T>,
    results: Seq<Result<M, E>>,
) -> bool {
    &&& results.len() == events.len()
    &&& forall|i: int|
        0 <= i < events.len() ==> call_ensures(serialize, (&events[i],), #[trigger] results[i])
}

/// Drains the queued events, serializes each and returns the messages for
/// the transport, each with `channel_id`.
///
/// An event that cannot be serialized is left out and its error handed
/// back; the others still go out.
pub fn send<T, M, E, S: Fn(&T) -> Result<M, E>>(
    events: &mut Vec<T>,
    channel_id: u8,
    serialize: S,
) -> (batch: (Vec<(u8, M)>, Vec<E>))
    requires
        forall|i: int|
            0 <= i < old(events)@.len() ==> call_requires(serialize, (&#[trigger] old(events)@[i],)),
    ensures
        final(events)@ == Seq::<T>::empty(),
        exists|results: Seq<Result<M, E>>|
            #![trigger serialized(serialize, old(events)@, results)]
            serialized(serialize, old(events)@, results) && batch.0@ == sent(channel_id, results)
                && batch.1@ == unsent(results),
{
    let mut results: Vec<Result<M, E>> = Vec::with_capacity(events.len());
    let mut index: usize = 0;
    while index < events.len()
        invariant
            *events == *old(events),
            index <= events@.len(),
            forall|i: int|
                0 <= i < events@.len() ==> call_requires(serialize, (&#[trigger] events@[i],)),
            serialized(serialize, events@.take(index as int), results@),
        decreases events@.len() - index,
    {
        let result = serialize(&events[index]);
        results.push(result);
        index += 1;
    }
    proof {
        assert(events@.take(index as int) == events@);
    }
    let ghost encoded = results@;
    events.clear();
    let batch = outgoing(channel_id, results);
    assert(serialized(serialize, old(events)@, encoded));
    batch
}

/// Whether `mapped` holds, for each of `events` in order, an outcome of
/// mapping it with `map_entities`.
pub open spec fn remapped<T, P: Fn(T) -> T>(map_entities: P, events: Seq<T>, mapped: Seq<T>) -> bool {
    &&& mapped.len() == events.len()
    &&& forall|i: int|
        0 <= i < events.len() ==> call_ensures(map_entities, (events[i],), #[trigger] mapped[i])
}

/// Same as [`send`], but first maps the entities inside each event from the
/// client's to the server's with `map_entities`.
///
/// Always used for events that contain entities.
pub fn map_and_send<T, M, E, P: Fn(T) -> T, S: Fn(&T) -> Result<M, E>>(
    events: &mut Vec<T>,
    channel_id: u8,
    map_entities: P,
    serialize: S,
) -> (batch: (Vec<(u8, M)>, Vec<E>))
    requires
        forall|i: int|
            0 <= i < old(events)@.len() ==> call_requires(map_entities, (#[trigger] old(events)@[i],)),
        forall|event: T| #[trigger] call_requires(serialize, (&event,)),
    ensures
        final(events)@ == Seq::<T>::empty(),
        exists|mapped: Seq<T>, results: Seq<Result<M, E>>|
            #![trigger
                remapped(map_entities, old(events)@, mapped),
                serialized(serialize, mapped, results)
            ]
            remapped(map_entities, old(events)@, mapped) && serialized(serialize, mapped, results)
                && batch.0@ == sent(channel_id, results) && batch.1@ == unsent(results),
{
    let mut drained: Vec<T> = Vec::new();
    drained.append(events);
    let mut mapped: Vec<T> = Vec::with_capacity(drained.len());
    let ghost all = drained@;
    for event in it: drained
        invariant
            it.seq() == all,
            forall|i: int| 0 <= i < all.len() ==> call_requires(map_entities, (#[trigger] all[i],)),
            remapped(map_entities, all.take(it.index() as int), mapped@),
    {
        let event = map_entities(event);
        mapped.push(event);
    }
    proof {
        assert(all.take(all.len() as int) == all);
    }
    let ghost mapped_events = mapped@;
    let batch = send(&mut mapped, channel_id, serialize);
    proof {
        let results = choose|results: Seq<Result<M, E>>|
            #![trigger serialized(serialize, mapped_events, results)]
            serialized(serialize, mapped_events, results) && batch.0@ == sent(channel_id, results)
                && batch.1@ == unsent(results);
        assert(remapped(map_entities, old(events)@, mapped_events) && serialized(
            serialize,
            mapped_events,
            results,
        ));
    }
    batch
}

/// Every message is either delivered or rejected.
pub proof fn lemma_delivered_or_rejected<T, E>(results: Seq<(ClientId, Result<T, E>)>)
    ensures
        delivered(results).len() + rejected(results).len() == results.len(),
    decreases results.len(),
{
    if results.len() > 0 {
        lemma_delivered_or_rejected(results.drop_last());
    }
}

/// Where every message was deserialized, each one is delivered, in the
/// order of arrival and with its sender, and none is rejected.
pub proof fn lemma_delivered_all<T, E>(results: Seq<(ClientId, Result<T, E>)>)
    requires
        forall|i: int| 0 <= i < results.len() ==> (#[trigger] results[i]).1 is Ok,
    ensures
        delivered(results).len() == results.len(),
        forall|i: int|
            0 <= i < results.len() ==> #[trigger] delivered(results)[i] == (FromClient {
                client_id: results[i].0,
                event: results[i].1->Ok_0,
            }),
        rejected(results) == Seq::<(ClientId, E)>::empty(),
    decreases results.len(),
{
    if results.len() > 0 {
        let rest = results.drop_last();
        assert forall|i: int| 0 <= i < rest.len() implies (#[trigger] rest[i]).1 is Ok by {
            assert(rest[i] == results[i]);
        }
        lemma_delivered_all(rest);
        assert(results.last() == results[results.len() - 1]);
        assert forall|i: int| 0 <= i < results.len() implies #[trigger] delivered(results)[i] == (
        FromClient { client_id: results[i].0, event: results[i].1->Ok_0 }) by {
            if i < rest.len() {
                assert(rest[i] == results[i]);
                assert(delivered(results)[i] == delivered(rest)[i]);
            }
        }
    }
}

/// A reset followed by a receive delivers nothing, whatever was queued
/// before, as long as no message that can be deserialized is still pending
/// on the channel: messages that fail are all dropped.
pub proof fn lemma_reset_then_receive<T, E>(queued: Seq<T>, pending: Seq<(ClientId, Result<T, E>)>)
    requires
        forall|i: int| 0 <= i < pending.len() ==> (#[trigger] pending[i]).1 is Err,
    ensures
        delivered(pending) == Seq::<FromClient<T>>::empty(),
        rejected(pending).len() == pending.len(),
    decreases pending.len(),
{
    if pending.len() > 0 {
        let rest = pending.drop_last();
        assert forall|i: int| 0 <= i < rest.len() implies (#[trigger] rest[i]).1 is Err by {
            assert(rest[i] == pending[i]);
        }
        lemma_reset_then_receive(queued, rest);
        assert(pending.last() == pending[pending.len() - 1]);
    }
}

/// After a reset nothing of what was queued reaches the server: the emptied
/// queue gives no message to send, so that nothing arrives that could be
/// delivered, and the local resend emits nothing.
pub proof fn lemma_reset_then_send<T, M, E, S: Fn(&T) -> Result<M, E>>(
    serialize: S,
    channel_id: u8,
    results: Seq<Result<M, E>>,
)
    requires
        serialized(serialize, Seq::<T>::empty(), results),
    ensures
        sent(channel_id, results) == Seq::<(u8, M)>::empty(),
        unsent(results) == Seq::<E>::empty(),
        delivered(Seq::<(ClientId, Result<T, E>)>::empty()) == Seq::<FromClient<T>>::empty(),
        local_envelopes(Seq::<T>::empty()) == Seq::<FromClient<T>>::empty(),
{
}

/// Where every event was serialized, each one gives a message, in the order
/// of the events and on the given channel, and none is left out.
pub proof fn lemma_sent_all<M, E>(channel_id: u8, results: Seq<Result<M, E>>)
    requires
        forall|i: int| 0 <= i < results.len() ==> #[trigger] results[i] is Ok,
    ensures
        sent(channel_id, results).len() == results.len(),
        forall|i: int|
            0 <= i < results.len() ==> #[trigger] sent(channel_id, results)[i] == (
                channel_id,
                results[i]->Ok_0,
            ),
        unsent(results) == Seq::<E>::empty(),
    decreases results.len(),
{
    if results.len() > 0 {
        let rest = results.drop_last();
        assert forall|i: int| 0 <= i < rest.len() implies #[trigger] rest[i] is Ok by {
            assert(rest[i] == results[i]);
        }
        lemma_sent_all(channel_id, rest);
        assert(results.last() == results[results.len() - 1]);
        assert forall|i: int| 0 <= i < results.len() implies #[trigger] sent(channel_id, results)[i]
            == (channel_id, results[i]->Ok_0) by {
            if i < rest.len() {
                assert(rest[i] == results[i]);
                assert(sent(channel_id, results)[i] == sent(channel_id, rest)[i]);
            }
        }
    }
}

/// Channel and functions of one registered event type.
///
/// `F` stands for the functions that send, receive, resend and reset events
/// of the type. They were made for the concrete type when it was
/// registered; the registry does not know it.
#[derive(Clone, Copy, Debug)]
pub struct NetworkEventFns<F> {
    /// The channel on which events of this type travel.
    pub channel_id: u8,
    /// The functions for events of this type.
    pub fns: F,
}

/// Registered client events, in the order of registration.
pub struct ClientEventRegistry<F> {
    events: Vec<NetworkEventFns<F>>,
}

impl<F> View for ClientEventRegistry<F> {
    type V = Seq<NetworkEventFns<F>>;

    closed spec fn view(&self) -> Seq<NetworkEventFns<F>> {
        self.events@
    }
}

impl<F> ClientEventRegistry<F> {
    /// Creates a registry without events.
    pub fn new() -> (registry: Self)
        ensures
            registry@ == Seq::<NetworkEventFns<F>>::empty(),
    {
        ClientEventRegistry { events: Vec::new() }
    }

    /// Number of registered event types.
    pub fn len(&self) -> (len: usize)
        ensures
            len == self@.len(),
    {
        self.events.len()
    }

    /// The entry that was registered as the `index`-th.
    pub fn get(&self, index: usize) -> (entry: &NetworkEventFns<F>)
        requires
            index < self@.len(),
        ensures
            *entry == self@[index as int],
    {
        &self.events[index]
    }

    /// Registers an event type that travels on `channel_id`, behind those
    /// registered before.
    pub fn register(&mut self, channel_id: u8, fns: F)
        ensures
            final(self)@ == old(self)@.push(NetworkEventFns { channel_id, fns }),
    {
        self.events.push(NetworkEventFns { channel_id, fns });
    }

    /// Lists what one network tick does: for each phase that runs, in the
    /// order of the phases, one step per registered event type, in the
    /// order of registration.
    pub fn plan_tick(&self, conditions: TickConditions) -> (steps: Vec<(Phase, usize)>)
        ensures
            steps@ == tick_steps(conditions, self@.len()),
    {
        let entries = self.events.len();
        let mut steps: Vec<(Phase, usize)> = Vec::new();
        push_phase(&mut steps, Phase::Reset, conditions, entries);
        push_phase(&mut steps, Phase::Receive, conditions, entries);
        push_phase(&mut steps, Phase::Send, conditions, entries);
        push_phase(&mut steps, Phase::ResendLocally, conditions, entries);
        steps
    }
}

/// A phase of a network tick.
#[derive(Clone, Copy, Debug, PartialEq, Eq, Structural)]
pub enum Phase {
    /// Queued events are discarded.
    Reset,
    /// Messages from clients are turned into received events.
    Receive,
    /// Queued events are sent to the server.
    Send,
    /// Queued events are turned into received events without the transport.
    ResendLocally,
}

/// What a tick knows of the connection.
#[derive(Clone, Copy, Debug)]
pub struct TickConditions {
    /// The client's connection was found dropped in this tick.
    pub just_disconnected: bool,
    /// This process runs a server.
    pub server_running: bool,
    /// This process is connected to a server as a client.
    pub client_connected: bool,
    /// This process holds the authority: it is a server, or plays alone.
    pub has_authority: bool,
}

/// Whether `phase` runs in a tick under `conditions`.
pub open spec fn phase_runs(phase: Phase, conditions: TickConditions) -> bool {
    match phase {
        Phase::Reset => conditions.just_disconnected,
        Phase::Receive => conditions.server_running,
        Phase::Send => conditions.client_connected,
        Phase::ResendLocally => conditions.has_authority,
    }
}

/// Place of a phase in the order of a tick.
pub open spec fn phase_rank(phase: Phase) -> int {
    match phase {
        Phase::Reset => 0,
        Phase::Receive => 1,
        Phase::Send => 2,
        Phase::ResendLocally => 3,
    }
}

/// The steps of one phase: one per registered event type in the order of
/// registration if the phase runs, none if it does not.
pub open spec fn phase_steps(phase: Phase, conditions: TickConditions, entries: nat) -> Seq<
    (Phase, usize),
> {
    if phase_runs(phase, conditions) {
        Seq::new(entries, |i: int| (phase, i as usize))
    } else {
        Seq::empty()
    }
}

/// The steps of one tick: those of reset, receive, send and local resend, in this order.
pub open spec fn tick_steps(conditions: TickConditions, entries: nat) -> Seq<(Phase, usize)> {
    phase_steps(Phase::Reset, conditions, entries) + phase_steps(
        Phase::Receive,
        conditions,
        entries,
    ) + phase_steps(Phase::Send, conditions, entries) + phase_steps(
        Phase::ResendLocally,
        conditions,
        entries,
    )
}

/// Whether `phase` runs in a tick under `conditions`.
pub fn runs(phase: Phase, conditions: TickConditions) -> (runs: bool)
    ensures
        runs == phase_runs(phase, conditions),
{
    match phase {
        Phase::Reset => conditions.just_disconnected,
        Phase::Receive => conditions.server_running,
        Phase::Send => conditions.client_connected,
        Phase::ResendLocally => conditions.has_authority,
    }
}

fn push_phase(
    steps: &mut Vec<(Phase, usize)>,
    phase: Phase,
    conditions: TickConditions,
    entries: usize,
)
    ensures
        final(steps)@ == old(steps)@ + phase_steps(phase, conditions, entries as nat),
{
    if runs(phase, conditions) {
        let mut index: usize = 0;
        while index < entries
            invariant
                index <= entries,
                steps@ == old(steps)@ + Seq::new(index as nat, |i: int| (phase, i as usize)),
            decreases entries - index,
        {
            steps.push((phase, index));
            index += 1;
        }
    }
}

/// Order of a tick: a step of a later phase never comes before a step of an
/// earlier one, so that the local resend comes after every send; within a
/// phase the event types follow each other in the order of registration;
/// and only phases that run have steps.
pub proof fn lemma_tick_order(conditions: TickConditions, entries: nat, first: int, second: int)
    requires
        entries <= usize::MAX,
        0 <= first < second < tick_steps(conditions, entries).len(),
    ensures
        phase_rank(tick_steps(conditions, entries)[first].0) <= phase_rank(
            tick_steps(conditions, entries)[second].0,
        ),
        tick_steps(conditions, entries)[first].0 == tick_steps(conditions, entries)[second].0
            ==> tick_steps(conditions, entries)[first].1 < tick_steps(conditions, entries)[second].1,
        phase_runs(tick_steps(conditions, entries)[first].0, conditions),
        phase_runs(tick_steps(conditions, entries)[second].0, conditions),
        tick_steps(conditions, entries)[second].1 < entries,
{
}

} // verus!
