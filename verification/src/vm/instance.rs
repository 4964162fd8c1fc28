//! Virtual machines, and the registry that keeps them.
//!
//! A virtual machine holds its registries, its events, its random generator, its clock and its
//! systems, but no world: that is shared by all of them, and the host lends it to the systems.
use std::rc::Rc;

use bevy_ecs::world::World;
use vstd::prelude::*;

use crate::component::{ComponentRegistry, Components};
use crate::error::VmError;
use crate::event;
use crate::event::{Channels, EventError, EventKind, EventRegistry, EventStore, Events};
use crate::random::{RngState, VmRng};
use crate::system::Pause;
use crate::value;
use crate::value::{Json, Value};
use crate::vm::id::{VmId, VmTag};
use crate::world_access;
use crate::world_access::{Stored, WorldAccessError};

verus! {

/// The longest time that a clock can show, in nanoseconds.
pub const MAX_NANOS: u128 = 18_446_744_073_709_551_615_999_999_999;

/// A clock: how long it has been running, and how far it was moved last, in nanoseconds.
#[derive(Debug, Clone, Copy, PartialEq, Eq, Structural)]
pub struct Clock {
    pub elapsed: u128,
    pub delta: u128,
}

impl Clock {
    /// A clock that has not run yet.
    pub fn new() -> (clock: Self)
        ensures
            clock == (Clock { elapsed: 0, delta: 0 }),
    {
        Clock { elapsed: 0, delta: 0 }
    }

    /// The clock after it is moved on.
    pub open spec fn moved(self, delta: u128) -> Clock {
        Clock { elapsed: (self.elapsed + delta) as u128, delta }
    }

    /// Moves the clock on.
    pub fn advance_by(&mut self, delta: u128)
        requires
            old(self).elapsed + delta <= MAX_NANOS,
        ensures
            *final(self) == old(self).moved(delta),
    {
        self.elapsed = self.elapsed + delta;
        self.delta = delta;
    }
}

/// What the systems of a virtual machine read and change in a tick, besides the world.
pub struct TickState {
    pub events: EventStore,
    pub rng: VmRng,
    pub clock: Clock,
    pub pause: Pause,
}

impl TickState {
    /// The state of a machine without channels that has not run yet, under a key of zeros.
    fn blank() -> (state: Self)
        ensures
            state@.events.typed == Map::<Seq<char>, event::Frame>::empty(),
            state@.events.dynamic == Map::<Seq<char>, Seq<Json>>::empty(),
            state@.rng == (RngState { key: Seq::new(32, |i: int| 0u8), pos: 0 }),
            state@.clock == (Clock { elapsed: 0, delta: 0 }),
            state@.pause == (Pause { paused: false }),
    {
        let key: [u8; 32] = [0; 32];
        assert(key@ =~= Seq::new(32, |i: int| 0u8));
        TickState {
            events: EventStore::new(&EventRegistry::new()),
            rng: VmRng::from_key(key),
            clock: Clock::new(),
            pause: Pause { paused: false },
        }
    }
}

/// The content of a [`TickState`].
#[verifier::ext_equal]
pub struct TickInfo {
    pub events: Events,
    pub rng: RngState,
    pub clock: Clock,
    pub pause: Pause,
}

impl View for TickState {
    type V = TickInfo;

    open spec fn view(&self) -> TickInfo {
        TickInfo {
            events: self.events@,
            rng: self.rng@,
            clock: self.clock,
            pause: self.pause,
        }
    }
}

impl TickInfo {
    /// What is left at the end of a tick: all but the events.
    pub open spec fn ended(self) -> TickInfo {
        TickInfo { events: self.events.emptied(), ..self }
    }

    /// How far the clock moves when the host moves time on: not at all while paused.
    pub open spec fn effective(self, delta: u128) -> u128 {
        if self.pause.paused {
            0
        } else {
            delta
        }
    }

    /// What is there after the host has moved time on.
    pub open spec fn later(self, delta: u128) -> TickInfo {
        TickInfo { clock: self.clock.moved(self.effective(delta)), ..self }
    }

    /// Whether the clock can show the time after it is moved on.
    pub open spec fn can_move(self, delta: u128) -> bool {
        self.clock.elapsed + self.effective(delta) <= MAX_NANOS
    }
}

/// A virtual machine with systems of type `S`.
pub struct VmInstance<S> {
    id: VmId,
    components: Rc<ComponentRegistry>,
    events: Rc<EventRegistry>,
    systems: Vec<S>,
    state: TickState,
}

/// The content of a [`VmInstance`], besides its systems.
#[verifier::ext_equal]
pub struct Machine {
    pub id: VmId,
    pub components: Components,
    pub channels: Channels,
    pub state: TickInfo,
}

impl<S> View for VmInstance<S> {
    type V = Machine;

    closed spec fn view(&self) -> Machine {
        Machine {
            id: self.id,
            components: self.components@,
            channels: self.events@,
            state: self.state@,
        }
    }
}

/// Whether running system `k` leads from its world and state to the next ones without failing.
pub open spec fn ran<S, W, F: Fn(&S, W, TickState) -> (W, TickState, Result<(), VmError>)>(
    systems: Seq<S>,
    run: F,
    moments: Seq<(W, TickState)>,
    k: int,
) -> bool {
    run.ensures(
        (&systems[k], moments[k].0, moments[k].1),
        (moments[k + 1].0, moments[k + 1].1, Ok(())),
    )
}

/// Whether systems ran one after the other without failing, with these worlds and states before
/// and after.
pub open spec fn ran_in_turn<S, W, F: Fn(&S, W, TickState) -> (W, TickState, Result<(), VmError>)>(
    systems: Seq<S>,
    run: F,
    moments: Seq<(W, TickState)>,
) -> bool {
    &&& 0 < moments.len() <= systems.len() + 1
    &&& forall|k: int| 0 <= k < moments.len() - 1 ==> #[trigger] ran(systems, run, moments, k)
}

/// Whether running `systems` leads from one world and state to the other and gives `done`: they
/// run in order, each once, and the first that fails is the last to run. The world of the host goes
/// from one run to the next, and nothing else touches it. Events do not outlive the tick, whether it
/// failed or not.
pub open spec fn is_tick<S, W, F: Fn(&S, W, TickState) -> (W, TickState, Result<(), VmError>)>(
    systems: Seq<S>,
    run: F,
    world: W,
    before: TickInfo,
    world_after: W,
    after: TickInfo,
    done: Result<(), VmError>,
) -> bool {
    exists|moments: Seq<(W, TickState)>|
        {
            &&& #[trigger] ran_in_turn(systems, run, moments)
            &&& moments[0].0 == world
            &&& moments[0].1@ == before
            &&& match done {
                Ok(()) => moments.len() == systems.len() + 1 && world_after == moments.last().0
                    && after == moments.last().1@.ended(),
                Err(e) => moments.len() <= systems.len() && exists|last: TickState| #[trigger]
                    run.ensures(
                        (&systems[moments.len() - 1], moments.last().0, moments.last().1),
                        (world_after, last, Err(e)),
                    ) && after == last@.ended(),
            }
        }
}

impl<S> VmInstance<S> {
    /// The systems, in the order in which they run.
    pub closed spec fn spec_systems(self) -> Seq<S> {
        self.systems@
    }

    /// A virtual machine that has not run yet.
    pub fn new(
        id: VmId,
        components: Rc<ComponentRegistry>,
        events: Rc<EventRegistry>,
        systems: Vec<S>,
        rng: VmRng,
    ) -> (vm: Self)
        ensures
            vm@.id == id,
            vm@.components == components@,
            vm@.channels == events@,
            vm@.state.events.typed == events@.typed.map_values(
                |d: Option<Json>| event::Frame { events: Seq::<Json>::empty(), primed: false },
            ),
            vm@.state.events.dynamic == events@.dynamic.map_values(
                |d: Json| Seq::<Json>::empty(),
            ),
            vm@.state.rng == rng@,
            vm@.state.clock == (Clock { elapsed: 0, delta: 0 }),
            !vm@.state.pause.paused,
            vm.spec_systems() == systems@,
    {
        let store = EventStore::new(&events);
        VmInstance {
            id,
            components,
            events,
            systems,
            state: TickState {
                events: store,
                rng,
                clock: Clock::new(),
                pause: Pause { paused: false },
            },
        }
    }

    /// The id of the virtual machine.
    #[must_use]
    pub fn id(&self) -> (id: VmId)
        ensures
            id == self@.id,
    {
        self.id
    }

    /// Moves the clock on by `delta` nanoseconds, or by nothing while it is paused.
    pub fn advance_time(&mut self, delta: u128)
        requires
            old(self)@.state.can_move(delta),
        ensures
            final(self)@ == (Machine { state: old(self)@.state.later(delta), ..old(self)@ }),
            final(self).spec_systems() == old(self).spec_systems(),
    {
        let effective: u128 = if self.state.pause.paused {
            0
        } else {
            delta
        };
        self.state.clock.advance_by(effective);
    }

    /// The clock.
    #[must_use]
    pub fn clock(&self) -> (clock: Clock)
        ensures
            clock == self@.state.clock,
    {
        self.state.clock
    }

    /// Pauses the clock or lets it go on.
    pub fn set_paused(&mut self, paused: bool)
        ensures
            final(self)@ == (Machine {
                state: TickInfo { pause: Pause { paused }, ..old(self)@.state },
                ..old(self)@
            }),
            final(self).spec_systems() == old(self).spec_systems(),
    {
        self.state.pause = Pause { paused };
    }

    /// Whether the clock is paused.
    #[must_use]
    pub fn is_paused(&self) -> (paused: bool)
        ensures
            paused == self@.state.pause.paused,
    {
        self.state.pause.paused
    }

    /// Runs one tick: every system in order, up to the first that fails; then the events of the
    /// tick are dropped. `run` runs one system on the world of the host.
    pub fn tick<W, F: Fn(&S, W, TickState) -> (W, TickState, Result<(), VmError>)>(
        &mut self,
        world: W,
        run: &F,
    ) -> (ticked: (W, Result<(), VmError>))
        requires
            forall|system: &S, world: W, state: TickState| run.requires((system, world, state)),
        ensures
            is_tick(
                old(self).spec_systems(),
                *run,
                world,
                old(self)@.state,
                ticked.0,
                final(self)@.state,
                ticked.1,
            ),
            final(self)@ == (Machine { state: final(self)@.state, ..old(self)@ }),
            final(self).spec_systems() == old(self).spec_systems(),
    {
        let ghost systems = self.systems@;
        let ghost before = self.state@;
        let ghost start = world;
        let mut world = world;
        let mut state = TickState::blank();
        std::mem::swap(&mut state, &mut self.state);
        let ghost mut moments: Seq<(W, TickState)> = seq![(world, state)];
        let mut done: Result<(), VmError> = Ok(());
        let mut i: usize = 0;
        while i < self.systems.len() && done.is_ok()
            invariant
                i <= self.systems@.len(),
                systems == self.systems@,
                forall|system: &S, world: W, state: TickState| run.requires((system, world, state)),
                moments[0].0 == start,
                moments[0].1@ == before,
                ran_in_turn(systems, *run, moments),
                match done {
                    Ok(()) => moments.len() == i + 1 && moments.last() == (world, state),
                    Err(e) => moments.len() <= systems.len() && run.ensures(
                        (&systems[moments.len() - 1], moments.last().0, moments.last().1),
                        (world, state, Err(e)),
                    ),
                },
            decreases self.systems@.len() - i,
        {
            let (next_world, next, outcome) = run(&self.systems[i], world, state);
            world = next_world;
            state = next;
            match outcome {
                Ok(unit) => {
                    proof {
                        assert(unit == ());
                        let sofar = moments;
                        moments = moments.push((world, state));
                        assert forall|k: int| 0 <= k < moments.len() - 1 implies #[trigger] ran(
                            systems,
                            *run,
                            moments,
                            k,
                        ) by {
                            if k < sofar.len() - 1 {
                                assert(ran(systems, *run, sofar, k));
                            }
                        }
                    }
                },
                Err(e) => {
                    done = Err(e);
                },
            }
            i += 1;
        }
        let ghost ran = state;
        state.events.end_tick_all();
        self.state = state;
        proof {
            assert(state@ == ran@.ended());
        }
        (world, done)
    }

    /// The components that the virtual machine knows.
    #[must_use]
    pub fn components(&self) -> (components: &Rc<ComponentRegistry>)
        ensures
            components@ == self@.components,
    {
        &self.components
    }

    /// The event channels that the virtual machine knows.
    #[must_use]
    pub fn channels(&self) -> (events: &Rc<EventRegistry>)
        ensures
            events@ == self@.channels,
    {
        &self.events
    }

    /// The events.
    #[must_use]
    pub fn events(&self) -> (events: &EventStore)
        ensures
            events@ == self@.state.events,
    {
        &self.state.events
    }

    /// The events, to be changed.
    pub fn events_mut(&mut self) -> (events: &mut EventStore)
        ensures
            events@ == old(self)@.state.events,
            final(self)@ == (Machine {
                state: TickInfo { events: final(events)@, ..old(self)@.state },
                ..old(self)@
            }),
            final(self).spec_systems() == old(self).spec_systems(),
    {
        &mut self.state.events
    }

    /// Sends a dynamic event: the payload is laid over the default of the channel.
    pub fn send_event_dynamic(&mut self, name: &str, payload: Value) -> (done: Result<(), VmError>)
        ensures
            final(self).spec_systems() == old(self).spec_systems(),
            ({
                let m = old(self)@;
                match done {
                    Ok(()) => {
                        &&& !m.channels.typed.contains_key(name@)
                        &&& m.channels.dynamic.contains_key(name@)
                        &&& !m.state.events.typed.contains_key(name@)
                        &&& m.state.events.dynamic.contains_key(name@)
                        &&& final(self)@ == (Machine {
                            state: TickInfo {
                                events: m.state.events.pushed(
                                    name@,
                                    event::with_default(
                                        payload@,
                                        Some(m.channels.dynamic[name@]),
                                    ),
                                ),
                                ..m.state
                            },
                            ..m
                        })
                    },
                    Err(e) => final(self)@ == m && e is Event && if m.channels.typed.contains_key(
                        name@,
                    ) {
                        e->Event_0 is KindMismatch && e->Event_0->KindMismatch_name@ == name@
                    } else if m.channels.dynamic.contains_key(name@) {
                        m.state.events.refuses_dynamic(name@, e->Event_0)
                    } else {
                        e->Event_0 is UnknownEvent && e->Event_0->UnknownEvent_name@ == name@
                    },
                }
            }),
    {
        let merged = match self.events.resolve(name) {
            Some(EventKind::Typed(_)) => {
                return Err(VmError::Event(EventError::KindMismatch { name: name.to_owned() }));
            },
            Some(EventKind::Dynamic(dynamic)) => event::merge_with_default(
                payload,
                Some(&dynamic.default),
            ),
            None => {
                return Err(VmError::Event(EventError::UnknownEvent { name: name.to_owned() }));
            },
        };
        match self.state.events.push_dynamic(name, merged) {
            Ok(()) => Ok(()),
            Err(e) => Err(VmError::Event(e)),
        }
    }

    /// Takes the dynamic events of a channel out.
    pub fn drain_events_dynamic(&mut self, name: &str) -> (drained: Result<Vec<Value>, VmError>)
        ensures
            final(self).spec_systems() == old(self).spec_systems(),
            ({
                let m = old(self)@;
                match drained {
                    Ok(events) => {
                        &&& !m.state.events.typed.contains_key(name@)
                        &&& m.state.events.dynamic.contains_key(name@)
                        &&& value::items_view(events@) == m.state.events.dynamic[name@]
                        &&& final(self)@ == (Machine {
                            state: TickInfo { events: m.state.events.drained(name@), ..m.state },
                            ..m
                        })
                    },
                    Err(e) => final(self)@ == m && e is Event && m.state.events.refuses_dynamic(
                        name@,
                        e->Event_0,
                    ),
                }
            }),
    {
        match self.state.events.drain_dynamic(name) {
            Ok(events) => Ok(events),
            Err(e) => Err(VmError::Event(e)),
        }
    }

    /// The entities of this virtual machine that carry the component of this name. `tagged` lists
    /// the marked entities of the world.
    pub fn query(&self, world: &mut World, component: &str, tagged: &Vec<(u64, VmTag)>) -> (found:
        Vec<u64>)
        ensures
            found@ == world_access::tagged_carriers(
                *old(world),
                self@.components,
                component@,
                tagged@,
                self@.id,
            ),
            world_access::finds_carriers(*old(world), self@.components, component@),
            world_access::world_entities(*final(world)) == world_access::world_entities(
                *old(world),
            ),
            world_access::world_components(*final(world)) == world_access::world_components(
                *old(world),
            ),
            world_access::world_parents(*final(world)) == world_access::world_parents(
                *old(world),
            ),
            world_access::world_children(*final(world)) == world_access::world_children(
                *old(world),
            ),
    {
        world_access::query_with_component_tagged(
            world,
            &self.components,
            component,
            tagged,
            self.id,
        )
    }

    /// Reads the value at `path` of a component of an entity, given what the host holds of it.
    pub fn get(
        &self,
        world: &World,
        entity: u64,
        component: &str,
        path: &str,
        stored: Stored,
    ) -> (found: Result<Value, WorldAccessError>)
        ensures
            world_access::is_read(
                *world,
                self@.components,
                entity,
                component@,
                path@,
                stored,
                found,
            ),
    {
        world_access::get(world, &self.components, entity, component, path, stored)
    }
}

/// Puts together what a virtual machine is made from: the typed event channels of the host, to
/// which its plugins then add dynamic ones.
pub struct VmInstanceBuilder {
    pub events: EventRegistry,
}

impl VmInstanceBuilder {
    /// A builder without channels.
    #[must_use]
    pub fn new() -> (builder: Self)
        ensures
            builder.events@.typed == Map::<Seq<char>, Option<Json>>::empty(),
            builder.events@.dynamic == Map::<Seq<char>, Json>::empty(),
    {
        VmInstanceBuilder { events: EventRegistry::new() }
    }

    /// Adds a typed channel.
    pub fn with_event(self, name: &str) -> (built: Result<Self, VmError>)
        ensures
            added_channel(self.events@, name@, None, built),
    {
        let mut events = self.events;
        match events.register_typed(name, None) {
            Ok(()) => Ok(VmInstanceBuilder { events }),
            Err(e) => Err(VmError::Event(e)),
        }
    }

    /// Adds a typed channel with the fields that a payload falls back to.
    pub fn with_event_default(self, name: &str, default: Value) -> (built: Result<Self, VmError>)
        ensures
            added_channel(self.events@, name@, Some(default@), built),
    {
        let mut events = self.events;
        match events.register_typed(name, Some(default)) {
            Ok(()) => Ok(VmInstanceBuilder { events }),
            Err(e) => Err(VmError::Event(e)),
        }
    }
}

/// Whether adding a typed channel gives `built`: the channel is added if its name is free.
pub open spec fn added_channel(
    before: Channels,
    name: Seq<char>,
    default: Option<Json>,
    built: Result<VmInstanceBuilder, VmError>,
) -> bool {
    match built {
        Ok(builder) => !before.taken(name) && builder.events@ == (Channels {
            typed: before.typed.insert(name, default),
            ..before
        }),
        Err(e) => before.taken(name) && e is Event && e->Event_0 is KindMismatch
            && e->Event_0->KindMismatch_name@ == name,
    }
}

/// The virtual machines of a world, in the order in which they were added.
pub struct VmRegistry<S> {
    ids: Vec<VmId>,
    machines: Vec<VmInstance<S>>,
}

/// Ids and machines side by side.
pub open spec fn side_by_side<S>(ids: Seq<VmId>, machines: Seq<VmInstance<S>>) -> Seq<
    (VmId, VmInstance<S>),
> {
    Seq::new(ids.len(), |i: int| (ids[i], machines[i]))
}

/// The ids of a list of machines.
pub open spec fn ids_of<S>(entries: Seq<(VmId, VmInstance<S>)>) -> Seq<VmId> {
    entries.map_values(|e: (VmId, VmInstance<S>)| e.0)
}

/// The place of the first machine with this id, or the number of machines if there is none.
pub open spec fn place_of<S>(entries: Seq<(VmId, VmInstance<S>)>, id: VmId) -> int
    decreases entries.len(),
{
    if entries.len() == 0 || entries[0].0 == id {
        0
    } else {
        1 + place_of(entries.drop_first(), id)
    }
}

/// The machine with this id.
pub open spec fn machine_of<S>(entries: Seq<(VmId, VmInstance<S>)>, id: VmId) -> Option<
    VmInstance<S>,
> {
    if place_of(entries, id) < entries.len() {
        Some(entries[place_of(entries, id)].1)
    } else {
        None
    }
}

impl<S> View for VmRegistry<S> {
    type V = Seq<(VmId, VmInstance<S>)>;

    closed spec fn view(&self) -> Seq<(VmId, VmInstance<S>)> {
        side_by_side(self.ids@, self.machines@)
    }
}

proof fn place_is_there<S>(entries: Seq<(VmId, VmInstance<S>)>, id: VmId, i: int)
    requires
        0 <= i < entries.len(),
        entries[i].0 == id,
        forall|j: int| 0 <= j < i ==> (#[trigger] entries[j]).0 != id,
    ensures
        place_of(entries, id) == i,
    decreases i,
{
    if i > 0 {
        let rest = entries.drop_first();
        assert(entries[0].0 != id);
        assert forall|j: int| 0 <= j < i - 1 implies (#[trigger] rest[j]).0 != id by {
            assert(rest[j] == entries[j + 1]);
        }
        place_is_there(rest, id, i - 1);
    }
}

proof fn no_place_for<S>(entries: Seq<(VmId, VmInstance<S>)>, id: VmId)
    requires
        forall|j: int| 0 <= j < entries.len() ==> (#[trigger] entries[j]).0 != id,
    ensures
        place_of(entries, id) == entries.len(),
    decreases entries.len(),
{
    if entries.len() > 0 {
        let rest = entries.drop_first();
        assert(entries[0].0 != id);
        assert forall|j: int| 0 <= j < rest.len() implies (#[trigger] rest[j]).0 != id by {
            assert(rest[j] == entries[j + 1]);
        }
        no_place_for(rest, id);
    }
}

impl<S> VmRegistry<S> {
    #[verifier::type_invariant]
    spec fn ids_differ(self) -> bool {
        self.ids@.no_duplicates() && self.ids@.len() == self.machines@.len()
    }

    /// A registry without machines.
    #[must_use]
    pub fn new() -> (registry: Self)
        ensures
            registry@.len() == 0,
    {
        VmRegistry { ids: Vec::new(), machines: Vec::new() }
    }

    fn position(&self, id: VmId) -> (found: Option<usize>)
        ensures
            match found {
                Some(i) => i == place_of(self@, id) && i < self.ids@.len() && self.ids@[i as int]
                    == id,
                None => place_of(self@, id) == self.ids@.len() && !self.ids@.contains(id),
            },
    {
        let mut i: usize = 0;
        while i < self.ids.len()
            invariant
                i <= self.ids@.len(),
                forall|j: int| 0 <= j < i ==> self.ids@[j] != id,
            decreases self.ids@.len() - i,
        {
            if self.ids[i] == id {
                proof {
                    place_is_there(self@, id, i as int);
                }
                return Some(i);
            }
            i += 1;
        }
        proof {
            no_place_for(self@, id);
        }
        None
    }

    /// Takes in a machine and gives its id. A machine that has the id already is replaced.
    pub fn insert(&mut self, vm: VmInstance<S>) -> (id: VmId)
        ensures
            id == vm@.id,
            final(self)@ == with_machine(old(self)@, vm),
    {
        let id = vm.id();
        let found = self.position(id);
        proof {
            use_type_invariant(&*self);
        }
        let mut taken = VmRegistry { ids: Vec::new(), machines: Vec::new() };
        std::mem::swap(self, &mut taken);
        let VmRegistry { mut ids, mut machines } = taken;
        let ghost before = side_by_side(ids@, machines@);
        match found {
            Some(i) => {
                machines.set(i, vm);
                assert(side_by_side(ids@, machines@) =~= before.update(i as int, (id, vm)));
            },
            None => {
                ids.push(id);
                machines.push(vm);
                assert(side_by_side(ids@, machines@) =~= before.push((id, vm)));
            },
        }
        *self = VmRegistry { ids, machines };
        id
    }

    /// Takes the machine with this id out.
    #[must_use]
    pub fn remove(&mut self, id: VmId) -> (gone: Option<VmInstance<S>>)
        ensures
            gone == machine_of(old(self)@, id),
            final(self)@ == (if gone is Some {
                old(self)@.remove(place_of(old(self)@, id))
            } else {
                old(self)@
            }),
    {
        match self.position(id) {
            Some(i) => {
                proof {
                    use_type_invariant(&*self);
                }
                let mut taken = VmRegistry { ids: Vec::new(), machines: Vec::new() };
                std::mem::swap(self, &mut taken);
                let VmRegistry { mut ids, mut machines } = taken;
                let ghost ids_before = ids@;
                let ghost before = side_by_side(ids@, machines@);
                let _ = ids.remove(i);
                let vm = machines.remove(i);
                proof {
                    assert(side_by_side(ids@, machines@) =~= before.remove(i as int));
                    let rest = ids@;
                    assert forall|a: int, b: int|
                        0 <= a < rest.len() && 0 <= b < rest.len() && a != b implies rest[a]
                        != rest[b] by {
                        let x = if a < i {
                            a
                        } else {
                            a + 1
                        };
                        let y = if b < i {
                            b
                        } else {
                            b + 1
                        };
                        assert(rest[a] == ids_before[x]);
                        assert(rest[b] == ids_before[y]);
                    }
                }
                *self = VmRegistry { ids, machines };
                Some(vm)
            },
            None => None,
        }
    }

    /// The machine with this id.
    #[must_use]
    pub fn get(&self, id: VmId) -> (found: Option<&VmInstance<S>>)
        ensures
            match found {
                Some(vm) => machine_of(self@, id) == Some(*vm),
                None => machine_of(self@, id) is None,
            },
    {
        proof {
            use_type_invariant(self);
        }
        match self.position(id) {
            Some(i) => Some(&self.machines[i]),
            None => None,
        }
    }

    /// The machine with this id, to be changed.
    #[must_use]
    pub fn get_mut(&mut self, id: VmId) -> (found: Option<&mut VmInstance<S>>)
        ensures
            match found {
                Some(vm) => {
                    &&& machine_of(old(self)@, id) == Some(*vm)
                    &&& final(self)@ == old(self)@.update(
                        place_of(old(self)@, id),
                        (id, *final(vm)),
                    )
                },
                None => machine_of(old(self)@, id) is None && final(self)@ == old(self)@,
            },
    {
        proof {
            use_type_invariant(&*self);
        }
        match self.position(id) {
            Some(i) => Some(&mut self.machines[i]),
            None => None,
        }
    }

    /// The ids of all machines.
    #[must_use]
    pub fn ids(&self) -> (ids: Vec<VmId>)
        ensures
            ids@ == ids_of(self@),
            ids@.no_duplicates(),
    {
        proof {
            use_type_invariant(self);
        }
        let mut ids: Vec<VmId> = Vec::new();
        let mut i: usize = 0;
        while i < self.ids.len()
            invariant
                i <= self.ids@.len(),
                ids@ == self.ids@.take(i as int),
            decreases self.ids@.len() - i,
        {
            ids.push(self.ids[i]);
            i += 1;
            assert(ids@ =~= self.ids@.take(i as int));
        }
        assert(ids@ =~= self.ids@);
        assert(ids_of(self@) =~= self.ids@);
        ids
    }

    /// All machines with their ids.
    pub fn iter(&self) -> (all: Vec<(VmId, &VmInstance<S>)>)
        ensures
            all@.len() == self@.len(),
            forall|i: int|
                0 <= i < all@.len() ==> self@[i] == (#[trigger] all@[i].0, *all@[i].1),
    {
        proof {
            use_type_invariant(self);
        }
        let mut all: Vec<(VmId, &VmInstance<S>)> = Vec::new();
        let mut i: usize = 0;
        while i < self.ids.len()
            invariant
                i <= self.ids@.len() == self.machines@.len(),
                all@.len() == i,
                forall|j: int|
                    0 <= j < i ==> self@[j] == (#[trigger] all@[j].0, *all@[j].1),
            decreases self.ids@.len() - i,
        {
            all.push((self.ids[i], &self.machines[i]));
            i += 1;
        }
        all
    }

    /// Whether there are no machines.
    #[must_use]
    pub fn is_empty(&self) -> (empty: bool)
        ensures
            empty == (self@.len() == 0),
    {
        self.ids.len() == 0
    }

    /// How many machines there are.
    #[must_use]
    pub fn len(&self) -> (n: usize)
        ensures
            n == self@.len(),
    {
        self.ids.len()
    }

    /// Lets time go on for every machine and runs a tick of each, in order. What fails in one
    /// machine does not keep the others from running: the ids of those that failed are given back
    /// with the reasons.
    pub fn tick_all<W, F: Fn(&S, W, TickState) -> (W, TickState, Result<(), VmError>)>(
        &mut self,
        delta: u128,
        world: W,
        run: &F,
    ) -> (ticked: (W, Vec<(VmId, VmError)>))
        requires
            forall|i: int|
                0 <= i < old(self)@.len() ==> (#[trigger] old(self)@[i]).1@.state.can_move(delta),
            forall|system: &S, world: W, state: TickState| run.requires((system, world, state)),
        ensures
            ids_of(final(self)@) == ids_of(old(self)@),
            exists|worlds: Seq<W>, outcomes: Seq<Result<(), VmError>>|
                {
                    &&& #[trigger] ticked_in_turn(
                        old(self)@,
                        final(self)@,
                        delta,
                        *run,
                        worlds,
                        outcomes,
                    )
                    &&& outcomes.len() == old(self)@.len()
                    &&& worlds[0] == world
                    &&& worlds.last() == ticked.0
                    &&& ticked.1@ == failures_of(ids_of(old(self)@), outcomes)
                },
    {
        proof {
            use_type_invariant(&*self);
        }
        let ghost before = self@;
        let ghost start = world;
        let mut taken = VmRegistry { ids: Vec::new(), machines: Vec::new() };
        std::mem::swap(self, &mut taken);
        let VmRegistry { ids, mut machines } = taken;
        let mut failures: Vec<(VmId, VmError)> = Vec::new();
        let mut world = world;
        let ghost mut outcomes: Seq<Result<(), VmError>> = Seq::empty();
        let ghost mut worlds: Seq<W> = seq![world];
        assert(ids_of(before) =~= ids@);
        let mut i: usize = 0;
        while i < ids.len()
            invariant
                i <= ids@.len() == machines@.len() == before.len(),
                ids_of(before) == ids@,
                outcomes.len() == i,
                worlds[0] == start,
                worlds.last() == world,
                forall|k: int|
                    0 <= k < before.len() ==> (#[trigger] before[k]).1@.state.can_move(delta),
                forall|system: &S, world: W, state: TickState| run.requires((system, world, state)),
                forall|k: int| i <= k < before.len() ==> machines@[k] == (#[trigger] before[k]).1,
                ticked_in_turn(
                    before,
                    side_by_side(ids@, machines@),
                    delta,
                    *run,
                    worlds,
                    outcomes,
                ),
                failures@ == failures_of(ids@.take(i as int), outcomes),
            decreases ids@.len() - i,
        {
            let ghost machines_before = machines@;
            let ghost outcomes_before = outcomes;
            let ghost worlds_before = worlds;
            assert(before[i as int].1@.state.can_move(delta));
            machines[i].advance_time(delta);
            let (next, done) = machines[i].tick(world, run);
            world = next;
            proof {
                outcomes = outcomes.push(done);
                worlds = worlds.push(world);
                assert(ids@.take(i + 1).drop_last() =~= ids@.take(i as int));
                assert(outcomes.drop_last() =~= outcomes_before);
                assert forall|k: int| 0 <= k < i + 1 implies #[trigger] ticked_at(
                    before,
                    side_by_side(ids@, machines@),
                    delta,
                    *run,
                    worlds,
                    outcomes,
                    k,
                ) by {
                    if k < i {
                        assert(ticked_at(
                            before,
                            side_by_side(ids@, machines_before),
                            delta,
                            *run,
                            worlds_before,
                            outcomes_before,
                            k,
                        ));
                    }
                }
            }
            match done {
                Ok(()) => {},
                Err(e) => {
                    failures.push((ids[i], e));
                },
            }
            i += 1;
        }
        assert(ids@.take(ids@.len() as int) =~= ids@);
        *self = VmRegistry { ids, machines };
        assert(ids_of(self@) =~= ids@);
        (world, failures)
    }
}

/// Whether one tick of machine `i`, after time has gone on, leads from one list of machines to the
/// other, and from one world to the next.
pub open spec fn ticked_at<S, W, F: Fn(&S, W, TickState) -> (W, TickState, Result<(), VmError>)>(
    before: Seq<(VmId, VmInstance<S>)>,
    after: Seq<(VmId, VmInstance<S>)>,
    delta: u128,
    run: F,
    worlds: Seq<W>,
    outcomes: Seq<Result<(), VmError>>,
    i: int,
) -> bool {
    let (x, y) = (before[i].1, after[i].1);
    &&& is_tick(
        x.spec_systems(),
        run,
        worlds[i],
        x@.state.later(delta),
        worlds[i + 1],
        y@.state,
        outcomes[i],
    )
    &&& y@ == (Machine { state: y@.state, ..x@ })
    &&& y.spec_systems() == x.spec_systems()
}

/// Whether the first machines, as many as there are outcomes, ticked one after the other, each once.
/// The world of the host goes from one machine to the next.
pub open spec fn ticked_in_turn<S, W, F: Fn(&S, W, TickState) -> (W, TickState, Result<(), VmError>)>(
    before: Seq<(VmId, VmInstance<S>)>,
    after: Seq<(VmId, VmInstance<S>)>,
    delta: u128,
    run: F,
    worlds: Seq<W>,
    outcomes: Seq<Result<(), VmError>>,
) -> bool {
    &&& worlds.len() == outcomes.len() + 1
    &&& forall|i: int|
        0 <= i < outcomes.len() ==> #[trigger] ticked_at(
            before,
            after,
            delta,
            run,
            worlds,
            outcomes,
            i,
        )
}

/// Those of the ids whose outcome is a failure, with the failure.
pub open spec fn failures_of(ids: Seq<VmId>, outcomes: Seq<Result<(), VmError>>) -> Seq<
    (VmId, VmError),
>
    decreases outcomes.len(),
{
    if outcomes.len() == 0 {
        Seq::empty()
    } else {
        let rest = failures_of(ids.drop_last(), outcomes.drop_last());
        match outcomes.last() {
            Ok(()) => rest,
            Err(e) => rest.push((ids.last(), e)),
        }
    }
}

/// The list after a machine was taken in: in the place of the one that had its id, or at the end.
pub open spec fn with_machine<S>(entries: Seq<(VmId, VmInstance<S>)>, vm: VmInstance<S>) -> Seq<
    (VmId, VmInstance<S>),
> {
    let place = place_of(entries, vm@.id);
    if place < entries.len() {
        entries.update(place, (vm@.id, vm))
    } else {
        entries.push((vm@.id, vm))
    }
}

proof fn place_bounds<S>(entries: Seq<(VmId, VmInstance<S>)>, id: VmId)
    ensures
        0 <= place_of(entries, id) <= entries.len(),
        place_of(entries, id) < entries.len() ==> entries[place_of(entries, id)].0 == id,
        forall|j: int| 0 <= j < place_of(entries, id) ==> (#[trigger] entries[j]).0 != id,
    decreases entries.len(),
{
    if entries.len() > 0 && entries[0].0 != id {
        let rest = entries.drop_first();
        place_bounds(rest, id);
        assert forall|j: int| 0 <= j < place_of(entries, id) implies (#[trigger] entries[j]).0
            != id by {
            if j > 0 {
                assert(entries[j] == rest[j - 1]);
            }
        }
        if place_of(rest, id) < rest.len() {
            assert(rest[place_of(rest, id)] == entries[place_of(entries, id)]);
        }
    }
}

/// A machine that was taken in is found by its id, and every other machine is found as before.
pub proof fn a_machine_is_found_by_its_id<S>(
    entries: Seq<(VmId, VmInstance<S>)>,
    vm: VmInstance<S>,
    other: VmId,
)
    requires
        other != vm@.id,
    ensures
        machine_of(with_machine(entries, vm), vm@.id) == Some(vm),
        machine_of(with_machine(entries, vm), other) == machine_of(entries, other),
{
    let after = with_machine(entries, vm);
    let place = place_of(entries, vm@.id);
    place_bounds(entries, vm@.id);
    place_is_there(after, vm@.id, place);
    place_bounds(entries, other);
    let spot = place_of(entries, other);
    if spot < entries.len() {
        assert(spot != place);
        place_is_there(after, other, spot);
    } else {
        assert forall|j: int| 0 <= j < after.len() implies (#[trigger] after[j]).0 != other by {
            if j < entries.len() {
                assert(entries[j].0 != other);
            }
        }
        no_place_for(after, other);
    }
}

/// A machine that was taken out is not found any more, and every other machine is found as before.
pub proof fn a_removed_machine_is_gone<S>(
    entries: Seq<(VmId, VmInstance<S>)>,
    id: VmId,
    other: VmId,
)
    requires
        ids_of(entries).no_duplicates(),
        place_of(entries, id) < entries.len(),
        other != id,
    ensures
        machine_of(entries.remove(place_of(entries, id)), id) is None,
        machine_of(entries.remove(place_of(entries, id)), other) == machine_of(entries, other),
{
    let place = place_of(entries, id);
    place_bounds(entries, id);
    let after = entries.remove(place);
    let ids = ids_of(entries);
    assert forall|j: int| 0 <= j < after.len() implies (#[trigger] after[j]).0 != id by {
        let k = if j < place {
            j
        } else {
            j + 1
        };
        assert(after[j] == entries[k]);
        assert(ids[k] != ids[place]);
    }
    no_place_for(after, id);
    place_bounds(entries, other);
    let spot = place_of(entries, other);
    if spot < entries.len() {
        assert(spot != place);
        let moved = if spot < place {
            spot
        } else {
            spot - 1
        };
        assert(after[moved] == entries[spot]);
        assert forall|j: int| 0 <= j < moved implies (#[trigger] after[j]).0 != other by {
            let k = if j < place {
                j
            } else {
                j + 1
            };
            assert(after[j] == entries[k]);
        }
        place_is_there(after, other, moved);
    } else {
        assert forall|j: int| 0 <= j < after.len() implies (#[trigger] after[j]).0 != other by {
            let k = if j < place {
                j
            } else {
                j + 1
            };
            assert(after[j] == entries[k]);
        }
        no_place_for(after, other);
    }
}

/// A paused clock shows the same time however much the host moves time on, and a clock that is not
/// paused runs with it.
pub proof fn a_paused_clock_stands_still(state: TickInfo, delta: u128)
    requires
        state.can_move(delta),
    ensures
        state.pause.paused ==> state.later(delta).clock == (Clock {
            elapsed: state.clock.elapsed,
            delta: 0,
        }),
        !state.pause.paused ==> state.later(delta).clock.elapsed == state.clock.elapsed + delta,
{
}

/// Whatever the systems do, and whether or not one of them fails, no event of a tick is left after
/// it.
pub proof fn a_tick_leaves_no_events<
    S,
    W,
    F: Fn(&S, W, TickState) -> (W, TickState, Result<(), VmError>),
>(
    systems: Seq<S>,
    run: F,
    world: W,
    before: TickInfo,
    world_after: W,
    after: TickInfo,
    done: Result<(), VmError>,
    name: Seq<char>,
)
    requires
        is_tick(systems, run, world, before, world_after, after, done),
    ensures
        after.events.dynamic.contains_key(name) ==> after.events.dynamic[name] == Seq::<
            Json,
        >::empty(),
        after.events.typed.contains_key(name) ==> after.events.typed[name].events == Seq::<
            Json,
        >::empty(),
{
}

/// Time adds up while a machine is not paused: the clock shows how far it was moved last, two
/// moves take it as far as both together, and nothing but the clock changes.
pub proof fn time_adds_up(state: TickInfo, first: u128, second: u128)
    requires
        !state.pause.paused,
        state.can_move(first),
        state.later(first).can_move(second),
    ensures
        state.later(first).clock.delta == first,
        state.later(first).later(second).clock.elapsed == state.clock.elapsed + first + second,
        state.later(first).later(second).clock.delta == second,
        state.later(first).events == state.events,
        state.later(first).rng == state.rng,
        state.later(first).pause == state.pause,
{
}

/// The end of a tick touches the events alone.
pub proof fn the_end_of_a_tick_keeps_the_rest(state: TickInfo)
    ensures
        state.ended().clock == state.clock,
        state.ended().rng == state.rng,
        state.ended().pause == state.pause,
        state.ended().events.dynamic.dom() == state.events.dynamic.dom(),
        state.ended().events.typed.dom() == state.events.typed.dom(),
{
    event::a_tick_ends_empty(state.events, Seq::empty());
}

/// A tick that succeeds has run every system once, the first first, each on the world and the
/// state that the one before it left, and ends in the world that the last one left.
pub proof fn every_system_runs_once_in_order<
    S,
    W,
    F: Fn(&S, W, TickState) -> (W, TickState, Result<(), VmError>),
>(
    systems: Seq<S>,
    run: F,
    world: W,
    before: TickInfo,
    world_after: W,
    after: TickInfo,
) -> (moments: Seq<(W, TickState)>)
    requires
        is_tick(systems, run, world, before, world_after, after, Ok(())),
    ensures
        moments.len() == systems.len() + 1,
        moments[0].0 == world,
        moments[0].1@ == before,
        moments.last().0 == world_after,
        after.clock == moments.last().1.clock,
        after.rng == moments.last().1.rng@,
        after.pause == moments.last().1.pause,
        forall|k: int|
            0 <= k < systems.len() ==> run.ensures(
                (&(#[trigger] systems[k]), moments[k].0, moments[k].1),
                (moments[k + 1].0, moments[k + 1].1, Ok(())),
            ),
{
    let moments = choose|moments: Seq<(W, TickState)>|
        {
            &&& #[trigger] ran_in_turn(systems, run, moments)
            &&& moments[0].0 == world
            &&& moments[0].1@ == before
            &&& moments.len() == systems.len() + 1 && world_after == moments.last().0 && after
                == moments.last().1@.ended()
        };
    assert forall|k: int| 0 <= k < systems.len() implies run.ensures(
        (&(#[trigger] systems[k]), moments[k].0, moments[k].1),
        (moments[k + 1].0, moments[k + 1].1, Ok(())),
    ) by {
        assert(ran(systems, run, moments, k));
    }
    moments
}

/// A tick that fails has run the systems up to one that failed, and none behind it: those before
/// it succeeded, and its error and its world are what the tick gives.
pub proof fn the_first_failure_ends_a_tick<
    S,
    W,
    F: Fn(&S, W, TickState) -> (W, TickState, Result<(), VmError>),
>(
    systems: Seq<S>,
    run: F,
    world: W,
    before: TickInfo,
    world_after: W,
    after: TickInfo,
    error: VmError,
) -> (moments: Seq<(W, TickState)>)
    requires
        is_tick(systems, run, world, before, world_after, after, Err(error)),
    ensures
        0 < moments.len() <= systems.len(),
        moments[0].0 == world,
        moments[0].1@ == before,
        forall|k: int|
            0 <= k < moments.len() - 1 ==> run.ensures(
                (&(#[trigger] systems[k]), moments[k].0, moments[k].1),
                (moments[k + 1].0, moments[k + 1].1, Ok(())),
            ),
        exists|last: TickState| #[trigger]
            run.ensures(
                (&systems[moments.len() - 1], moments.last().0, moments.last().1),
                (world_after, last, Err(error)),
            ) && after.clock == last.clock && after.rng == last.rng@ && after.pause == last.pause,
{
    let moments = choose|moments: Seq<(W, TickState)>|
        {
            &&& #[trigger] ran_in_turn(systems, run, moments)
            &&& moments[0].0 == world
            &&& moments[0].1@ == before
            &&& moments.len() <= systems.len() && exists|last: TickState| #[trigger]
                run.ensures(
                    (&systems[moments.len() - 1], moments.last().0, moments.last().1),
                    (world_after, last, Err(error)),
                ) && after == last@.ended()
        };
    assert forall|k: int| 0 <= k < moments.len() - 1 implies run.ensures(
        (&(#[trigger] systems[k]), moments[k].0, moments[k].1),
        (moments[k + 1].0, moments[k + 1].1, Ok(())),
    ) by {
        assert(ran(systems, run, moments, k));
    }
    moments
}

/// In a round of ticks every machine ticks, one after the other, on the world that the one before
/// it left: its clock is moved first, and it keeps its id, its systems, its components and its
/// channels, whether its tick fails or not.
pub proof fn every_machine_ticks_in_turn<
    S,
    W,
    F: Fn(&S, W, TickState) -> (W, TickState, Result<(), VmError>),
>(
    before: Seq<(VmId, VmInstance<S>)>,
    after: Seq<(VmId, VmInstance<S>)>,
    delta: u128,
    run: F,
    worlds: Seq<W>,
    outcomes: Seq<Result<(), VmError>>,
    i: int,
)
    requires
        ticked_in_turn(before, after, delta, run, worlds, outcomes),
        outcomes.len() == before.len(),
        0 <= i < before.len(),
        before[i].1@.state.can_move(delta),
    ensures
        worlds.len() == before.len() + 1,
        after[i].1@.id == before[i].1@.id,
        after[i].1@.components == before[i].1@.components,
        after[i].1@.channels == before[i].1@.channels,
        after[i].1.spec_systems() == before[i].1.spec_systems(),
        exists|start: TickInfo|
            {
                &&& #[trigger] is_tick(
                    before[i].1.spec_systems(),
                    run,
                    worlds[i],
                    start,
                    worlds[i + 1],
                    after[i].1@.state,
                    outcomes[i],
                )
                &&& start.clock.elapsed == before[i].1@.state.clock.elapsed + (if before[
                    i
                ].1@.state.pause.paused {
                    0
                } else {
                    delta as int
                })
                &&& start.events == before[i].1@.state.events
                &&& start.rng == before[i].1@.state.rng
                &&& start.pause == before[i].1@.state.pause
            },
{
    assert(ticked_at(before, after, delta, run, worlds, outcomes, i));
    let start = before[i].1@.state.later(delta);
    assert(is_tick(
        before[i].1.spec_systems(),
        run,
        worlds[i],
        start,
        worlds[i + 1],
        after[i].1@.state,
        outcomes[i],
    ));
}

/// The failures of a round are those of the machines that failed, each with its id, in the order
/// of the machines; a machine that succeeded is not among them.
pub proof fn failures_keep_their_order(
    a: Seq<VmId>,
    x: Seq<Result<(), VmError>>,
    b: Seq<VmId>,
    y: Seq<Result<(), VmError>>,
    id: VmId,
    error: VmError,
)
    requires
        a.len() == x.len(),
        b.len() == y.len(),
    ensures
        failures_of(a + b, x + y) == failures_of(a, x) + failures_of(b, y),
        failures_of(seq![id], seq![Err::<(), VmError>(error)]) == seq![(id, error)],
        failures_of(seq![id], seq![Ok::<(), VmError>(())]).len() == 0,
    decreases y.len(),
{
    if y.len() == 0 {
        assert(a + b =~= a);
        assert(x + y =~= x);
        assert(failures_of(a, x) + failures_of(b, y) =~= failures_of(a, x));
    } else {
        failures_keep_their_order(a, x, b.drop_last(), y.drop_last(), id, error);
        assert((a + b).drop_last() =~= a + b.drop_last());
        assert((x + y).drop_last() =~= x + y.drop_last());
        assert((a + b).last() == b.last());
        assert((x + y).last() == y.last());
        assert(failures_of(a + b, x + y) =~= failures_of(a, x) + failures_of(b, y));
    }
    let bad = seq![Err::<(), VmError>(error)];
    let good = seq![Ok::<(), VmError>(())];
    assert(bad.drop_last() =~= Seq::<Result<(), VmError>>::empty());
    assert(good.drop_last() =~= Seq::<Result<(), VmError>>::empty());
    assert(seq![id].drop_last() =~= Seq::<VmId>::empty());
    assert(bad.last() == Err::<(), VmError>(error));
    assert(good.last() == Ok::<(), VmError>(()));
    assert(seq![id].last() == id);
    let nobody = failures_of(seq![id].drop_last(), bad.drop_last());
    assert(nobody =~= Seq::<(VmId, VmError)>::empty());
    assert(failures_of(seq![id], bad) =~= seq![(id, error)]);
    assert(failures_of(seq![id].drop_last(), good.drop_last()) =~= Seq::<(VmId, VmError)>::empty());
}

/// A machine that is taken in stands in the place of the one that had its id, or behind all
/// others; the others keep their places.
pub proof fn a_new_machine_comes_last<S>(
    entries: Seq<(VmId, VmInstance<S>)>,
    vm: VmInstance<S>,
    i: int,
)
    requires
        ids_of(entries).no_duplicates(),
        0 <= i < entries.len(),
    ensures
        entries[i].0 == vm@.id ==> with_machine(entries, vm) == entries.update(i, (vm@.id, vm)),
        !ids_of(entries).contains(vm@.id) ==> with_machine(entries, vm) == entries.push((vm@.id, vm)),
        entries[i].0 != vm@.id ==> with_machine(entries, vm)[i] == entries[i],
{
    place_bounds(entries, vm@.id);
    let place = place_of(entries, vm@.id);
    let ids = ids_of(entries);
    if place < entries.len() {
        assert(ids[place] == vm@.id);
        assert(ids.contains(ids[place]));
        if entries[i].0 == vm@.id {
            assert(ids[i] == ids[place]);
        }
    } else if entries[i].0 == vm@.id {
        assert(entries[i].0 != vm@.id);
    }
}

/// A typed channel is added exactly if no channel of either kind has the name; it gets its
/// default, and every other channel stays.
pub proof fn channels_are_added_under_free_names(
    before: Channels,
    name: Seq<char>,
    default: Option<Json>,
    built: Result<VmInstanceBuilder, VmError>,
    other: Seq<char>,
)
    requires
        added_channel(before, name, default, built),
    ensures
        built is Ok <==> !before.typed.contains_key(name) && !before.dynamic.contains_key(name),
        built is Ok ==> {
            let now = built->Ok_0.events@;
            &&& now.typed.contains_key(name) && now.typed[name] == default
            &&& now.dynamic == before.dynamic
            &&& other != name ==> (now.typed.contains_key(other) <==> before.typed.contains_key(
                other,
            ))
            &&& other != name && before.typed.contains_key(other) ==> now.typed[other]
                == before.typed[other]
        },
        built is Err ==> built->Err_0 is Event && built->Err_0->Event_0 is KindMismatch
            && built->Err_0->Event_0->KindMismatch_name@ == name,
{
}

/// A new machine has run for no time, is not paused, has every channel that was registered for it,
/// all of them empty, and runs the systems it was given.
pub proof fn new_machines_start_afresh<S>(
    id: VmId,
    components: Rc<ComponentRegistry>,
    events: Rc<EventRegistry>,
    systems: Vec<S>,
    rng: VmRng,
    vm: VmInstance<S>,
    name: Seq<char>,
)
    requires
        call_ensures(VmInstance::<S>::new, (id, components, events, systems, rng), vm),
    ensures
        vm@.id == id,
        vm@.components == components@,
        vm@.channels == events@,
        vm.spec_systems() == systems@,
        vm@.state.rng == rng@,
        vm@.state.clock.elapsed == 0,
        vm@.state.clock.delta == 0,
        !vm@.state.pause.paused,
        vm@.state.events.dynamic.contains_key(name) <==> events@.dynamic.contains_key(name),
        vm@.state.events.typed.contains_key(name) <==> events@.typed.contains_key(name),
        events@.dynamic.contains_key(name) ==> vm@.state.events.dynamic[name].len() == 0,
        events@.typed.contains_key(name) ==> vm@.state.events.typed[name].events.len() == 0,
{
}

/// The clock of a machine moves on by what it is told, unless the machine is paused; then it stands
/// still and tells that no time went by. Nothing else changes.
pub proof fn the_clock_runs_unless_paused<S>(
    vm: &mut VmInstance<S>,
    paused: bool,
    then: &mut VmInstance<S>,
    delta: u128,
)
    requires
        call_ensures(VmInstance::<S>::set_paused, (vm, paused), ()),
        *final(vm) == *old(then),
        old(then)@.state.can_move(delta),
        call_ensures(VmInstance::<S>::advance_time, (then, delta), ()),
    ensures
        old(then)@.state.clock == old(vm)@.state.clock,
        final(then)@.state.pause.paused == paused,
        paused ==> final(then)@.state.clock.elapsed == old(vm)@.state.clock.elapsed
            && final(then)@.state.clock.delta == 0,
        !paused ==> final(then)@.state.clock.elapsed == old(vm)@.state.clock.elapsed + delta
            && final(then)@.state.clock.delta == delta,
        final(then)@.id == old(vm)@.id,
        final(then)@.components == old(vm)@.components,
        final(then)@.channels == old(vm)@.channels,
        final(then)@.state.events == old(vm)@.state.events,
        final(then)@.state.rng == old(vm)@.state.rng,
        final(then).spec_systems() == old(vm).spec_systems(),
{
}

/// An event that was sent to a machine is the last that is taken out of its channel, behind those
/// that were there; it has every field of the payload. Afterwards the channel is empty, and the
/// other channels are as they were.
pub proof fn sent_events_are_drained<S>(
    vm: &mut VmInstance<S>,
    name: &str,
    payload: Value,
    sent: Result<(), VmError>,
    then: &mut VmInstance<S>,
    drained: Result<Vec<Value>, VmError>,
    key: Seq<char>,
    other: Seq<char>,
)
    requires
        call_ensures(VmInstance::<S>::send_event_dynamic, (vm, name, payload), sent),
        sent is Ok,
        *final(vm) == *old(then),
        call_ensures(VmInstance::<S>::drain_events_dynamic, (then, name), drained),
    ensures
        drained is Ok,
        ({
            let before = old(vm)@.state.events.dynamic[name@];
            let events = drained->Ok_0@;
            &&& events.len() == before.len() + 1
            &&& forall|i: int| 0 <= i < before.len() ==> (#[trigger] events[i])@ == before[i]
            &&& !(payload@ is Object) ==> events.last()@ == payload@
            &&& payload@ is Object && payload@->Object_0.contains_key(key) ==> events.last()@
                is Object && events.last()@->Object_0.contains_key(key)
                && events.last()@->Object_0[key] == payload@->Object_0[key]
        }),
        final(then)@.state.events.dynamic[name@].len() == 0,
        other != name@ ==> final(then)@.state.events.dynamic[other]
            == old(vm)@.state.events.dynamic[other],
        final(then)@.state.events.typed == old(vm)@.state.events.typed,
        final(then)@.state.clock == old(vm)@.state.clock,
        final(then)@.id == old(vm)@.id,
{
    let before = old(vm)@.state.events.dynamic[name@];
    let default = Some(old(vm)@.channels.dynamic[name@]);
    event::a_payload_is_never_lost(payload@, default, key);
    let between = old(then)@.state.events.dynamic[name@];
    assert(between =~= before.push(event::with_default(payload@, default)));
    let events = drained->Ok_0@;
    assert(value::items_view(events) == between);
    assert(value::items_view(events).len() == events.len());
    assert forall|i: int| 0 <= i < between.len() implies (#[trigger] events[i])@ == between[i] by {
        assert(value::items_view(events)[i] == events[i]@);
    }
}

/// A machine that was taken in is found by its id, one that was taken out is given back and is not
/// found any more, and the others are found as before.
pub proof fn machines_are_kept_by_id<S>(
    registry: &mut VmRegistry<S>,
    vm: VmInstance<S>,
    id: VmId,
    then: &mut VmRegistry<S>,
    asked: VmId,
    gone: Option<VmInstance<S>>,
    other: VmId,
)
    requires
        ids_of(old(registry)@).no_duplicates(),
        call_ensures(VmRegistry::<S>::insert, (registry, vm), id),
        final(registry)@ == old(then)@,
        asked == id,
        call_ensures(VmRegistry::<S>::remove, (then, asked), gone),
    ensures
        id == vm@.id,
        gone == Some(vm),
        machine_of(final(then)@, id) is None,
        other != id ==> machine_of(final(then)@, other) == machine_of(old(registry)@, other),
{
    let entries = old(registry)@;
    let after = old(then)@;
    let place = place_of(entries, id);
    let stranger = VmId(if id.0 == 0 {
        1
    } else {
        0
    });
    a_machine_is_found_by_its_id(entries, vm, stranger);
    place_bounds(entries, id);
    place_bounds(after, id);
    assert(ids_of(after).no_duplicates()) by {
        if place < entries.len() {
            assert(ids_of(after) =~= ids_of(entries));
        } else {
            assert(ids_of(after) =~= ids_of(entries).push(id));
            assert forall|i: int| 0 <= i < entries.len() implies #[trigger] ids_of(entries)[i]
                != id by {
                assert(entries[i].0 != id);
            }
        }
    }
    a_removed_machine_is_gone(after, id, stranger);
    if other != id {
        a_machine_is_found_by_its_id(entries, vm, other);
        a_removed_machine_is_gone(after, id, other);
    }
}

} // verus!
