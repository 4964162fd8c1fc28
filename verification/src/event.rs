//! Events: named channels that scripts and the host read and emit on.
//!
//! A typed channel stands for a message type of the host, which keeps the messages. In each tick
//! the first read of a channel pulls in what is new; every later read in the tick sees the same
//! events. A dynamic channel is declared by configuration and kept here; what is emitted can be
//! read in the same tick, and is gone at its end.
use vstd::prelude::*;
use vstd::string::*;

use crate::dict;
use crate::dict::Dict;
use crate::text;
use crate::value;
use crate::value::{Json, Value};

verus! {

/// Why an event operation failed.
#[derive(Debug, Clone, PartialEq, Eq)]
pub enum EventError {
    /// No channel has the name.
    UnknownEvent { name: String },
    /// The channel is of the other kind, or the name is taken.
    KindMismatch { name: String },
    /// An event of the host has no [`Value`] form.
    Serialize { name: String, reason: String },
    /// A payload does not fit the message type of the channel.
    Deserialize { name: String, reason: String },
    /// The host does not keep messages for the channel.
    MissingResource { name: String },
}

impl EventError {
    /// The message that describes the error.
    pub open spec fn text(self) -> Seq<char> {
        match self {
            EventError::UnknownEvent { name } => "event `"@ + name@ + "` is not registered"@,
            EventError::KindMismatch { name } => "event `"@ + name@ + "` channel kind mismatch (typed vs dynamic)"@,
            EventError::Serialize { name, reason } => "failed to serialize event `"@ + name@ + "`: "@ + reason@,
            EventError::Deserialize { name, reason } => "failed to deserialize event `"@ + name@ + "`: "@ + reason@,
            EventError::MissingResource { name } => "event `"@ + name@ + "` has no `Messages<T>` resource in the World"@,
        }
    }

    /// The message that describes the error.
    #[must_use]
    pub fn message(&self) -> (written: String)
        ensures
            written@ == self.text(),
    {
        match self {
            EventError::UnknownEvent { name } => text::in_between("event `", name.as_str(), "` is not registered"),
            EventError::KindMismatch { name } => text::in_between("event `", name.as_str(), "` channel kind mismatch (typed vs dynamic)"),
            EventError::Serialize { name, reason } => {
                let mut whole = text::in_between("failed to serialize event `", name.as_str(), "`: ");
                whole.append(reason.as_str());
                whole
            },
            EventError::Deserialize { name, reason } => {
                let mut whole = text::in_between("failed to deserialize event `", name.as_str(), "`: ");
                whole.append(reason.as_str());
                whole
            },
            EventError::MissingResource { name } => text::in_between("event `", name.as_str(), "` has no `Messages<T>` resource in the World"),
        }
    }
}

/// A typed channel: the payload that emitted events are laid over, if its type has one.
pub struct TypedEvent {
    pub default: Option<Value>,
    pub name: String,
}

impl TypedEvent {
    /// The name that the channel was registered under.
    #[must_use]
    pub fn name(&self) -> (name: &str)
        ensures
            name@ == self.name@,
    {
        self.name.as_str()
    }
}

/// A dynamic channel: the payload that emitted events are laid over.
pub struct DynEvent {
    pub default: Value,
}

/// Which kind of channel a name belongs to.
pub enum EventKind<'a> {
    Typed(&'a TypedEvent),
    Dynamic(&'a DynEvent),
}

pub open spec fn optional_view(v: Option<Value>) -> Option<Json> {
    match v {
        Some(x) => Some(x@),
        None => None,
    }
}

/// `payload` laid over `default`, if there is one.
pub open spec fn with_default(payload: Json, default: Option<Json>) -> Json {
    match default {
        Some(d) => value::merged(d, payload),
        None => payload,
    }
}

/// Lays a payload over the default of its channel: the fields of two objects are put together,
/// those of the payload winning; any other payload stands as it is.
#[must_use]
pub fn merge_with_default(payload: Value, default: Option<&Value>) -> (merged: Value)
    ensures
        merged@ == with_default(
            payload@,
            match default {
                Some(d) => Some(d@),
                None => None,
            },
        ),
{
    match default {
        Some(d) => value::merge(d.clone(), payload),
        None => payload,
    }
}

/// The events of one dynamic channel in one tick.
pub struct DynEventBuffer {
    storage: Vec<Value>,
}

impl View for DynEventBuffer {
    type V = Seq<Json>;

    closed spec fn view(&self) -> Seq<Json> {
        value::items_view(self.storage@)
    }
}

impl DynEventBuffer {
    /// A buffer without events.
    pub fn new() -> (buffer: Self)
        ensures
            buffer@ == Seq::<Json>::empty(),
    {
        let buffer = DynEventBuffer { storage: Vec::new() };
        assert(buffer@ =~= Seq::<Json>::empty());
        buffer
    }

    /// Adds an event.
    pub fn push(&mut self, value: Value)
        ensures
            final(self)@ == old(self)@.push(value@),
    {
        self.storage.push(value);
        assert(self@ =~= old(self)@.push(value@));
    }

    /// Takes out all events.
    pub fn drain(&mut self) -> (events: Vec<Value>)
        ensures
            value::items_view(events@) == old(self)@,
            final(self)@ == Seq::<Json>::empty(),
    {
        let mut events: Vec<Value> = Vec::new();
        std::mem::swap(&mut self.storage, &mut events);
        assert(self@ =~= Seq::<Json>::empty());
        events
    }

    /// The events.
    #[must_use]
    pub fn current(&self) -> (events: &Vec<Value>)
        ensures
            value::items_view(events@) == self@,
    {
        &self.storage
    }

    /// Drops all events.
    pub fn clear(&mut self)
        ensures
            final(self)@ == Seq::<Json>::empty(),
    {
        self.storage.clear();
        assert(self@ =~= Seq::<Json>::empty());
    }
}

/// The channels that can be read and emitted on.
pub struct EventRegistry {
    typed: Dict<TypedEvent>,
    dynamic: Dict<DynEvent>,
}

/// The content of an [`EventRegistry`]: the default of every channel.
#[verifier::ext_equal]
pub struct Channels {
    pub typed: Map<Seq<char>, Option<Json>>,
    pub dynamic: Map<Seq<char>, Json>,
}

impl Channels {
    /// Whether a channel of either kind has the name.
    pub open spec fn taken(self, name: Seq<char>) -> bool {
        self.typed.contains_key(name) || self.dynamic.contains_key(name)
    }

    /// No name belongs to a typed and a dynamic channel at once.
    pub open spec fn wf(self) -> bool {
        forall|name: Seq<char>| !(self.typed.contains_key(name) && self.dynamic.contains_key(name))
    }
}

impl View for EventRegistry {
    type V = Channels;

    closed spec fn view(&self) -> Channels {
        Channels {
            typed: self.typed@.map_values(|t: TypedEvent| optional_view(t.default)),
            dynamic: self.dynamic@.map_values(|d: DynEvent| d.default@),
        }
    }
}

impl EventRegistry {
    #[verifier::type_invariant]
    spec fn names_differ(self) -> bool {
        &&& forall|name: Seq<char>|
            !(#[trigger] self.typed@.contains_key(name) && self.dynamic@.contains_key(name))
        &&& forall|name: Seq<char>| #[trigger]
            self.typed@.contains_key(name) ==> self.typed@[name].name@ == name
    }

    /// A registry without channels.
    #[must_use]
    pub fn new() -> (registry: Self)
        ensures
            registry@.typed == Map::<Seq<char>, Option<Json>>::empty(),
            registry@.dynamic == Map::<Seq<char>, Json>::empty(),
    {
        let registry = EventRegistry { typed: Dict::new(), dynamic: Dict::new() };
        assert(registry@.typed =~= Map::<Seq<char>, Option<Json>>::empty());
        assert(registry@.dynamic =~= Map::<Seq<char>, Json>::empty());
        registry
    }

    /// Registers a typed channel, unless the name is taken.
    pub fn register_typed(&mut self, name: &str, default: Option<Value>) -> (done: Result<
        (),
        EventError,
    >)
        ensures
            final(self)@.wf(),
            match done {
                Ok(()) => {
                    &&& !old(self)@.taken(name@)
                    &&& final(self)@.typed == old(self)@.typed.insert(
                        name@,
                        optional_view(default),
                    )
                    &&& final(self)@.dynamic == old(self)@.dynamic
                },
                Err(e) => {
                    &&& old(self)@.taken(name@)
                    &&& final(self)@ == old(self)@
                    &&& e is KindMismatch
                    &&& e->KindMismatch_name@ == name@
                },
            },
    {
        proof {
            use_type_invariant(&*self);
        }
        if self.typed.contains_key(name) || self.dynamic.contains_key(name) {
            return Err(EventError::KindMismatch { name: name.to_owned() });
        }
        let mut taken = EventRegistry { typed: Dict::new(), dynamic: Dict::new() };
        std::mem::swap(self, &mut taken);
        let EventRegistry { typed, dynamic } = taken;
        let mut typed = typed;
        typed.insert(name.to_owned(), TypedEvent { default, name: name.to_owned() });
        *self = EventRegistry { typed, dynamic };
        assert(self@.typed =~= old(self)@.typed.insert(name@, optional_view(default)));
        Ok(())
    }

    /// Registers a dynamic channel, unless the name is taken.
    pub fn register_dynamic(&mut self, name: &str, default: Value) -> (done: Result<
        (),
        EventError,
    >)
        ensures
            final(self)@.wf(),
            match done {
                Ok(()) => {
                    &&& !old(self)@.taken(name@)
                    &&& final(self)@.typed == old(self)@.typed
                    &&& final(self)@.dynamic == old(self)@.dynamic.insert(name@, default@)
                },
                Err(e) => {
                    &&& old(self)@.taken(name@)
                    &&& final(self)@ == old(self)@
                    &&& e is KindMismatch
                    &&& e->KindMismatch_name@ == name@
                },
            },
    {
        proof {
            use_type_invariant(&*self);
        }
        if self.typed.contains_key(name) || self.dynamic.contains_key(name) {
            return Err(EventError::KindMismatch { name: name.to_owned() });
        }
        let mut taken = EventRegistry { typed: Dict::new(), dynamic: Dict::new() };
        std::mem::swap(self, &mut taken);
        let EventRegistry { typed, dynamic } = taken;
        let mut dynamic = dynamic;
        dynamic.insert(name.to_owned(), DynEvent { default });
        *self = EventRegistry { typed, dynamic };
        assert(self@.dynamic =~= old(self)@.dynamic.insert(name@, default@));
        Ok(())
    }

    /// The channel of this name.
    #[must_use]
    pub fn resolve(&self, name: &str) -> (kind: Option<EventKind<'_>>)
        ensures
            match kind {
                Some(EventKind::Typed(t)) => self@.typed.contains_key(name@) && self@.typed[name@]
                    == optional_view(t.default) && t.name@ == name@,
                Some(EventKind::Dynamic(d)) => !self@.typed.contains_key(name@)
                    && self@.dynamic.contains_key(name@) && self@.dynamic[name@] == d.default@,
                None => !self@.taken(name@),
            },
    {
        match self.typed(name) {
            Some(typed) => Some(EventKind::Typed(typed)),
            None => match self.dynamic.get(name) {
                Some(event) => Some(EventKind::Dynamic(event)),
                None => None,
            },
        }
    }

    /// The typed channel of this name.
    #[must_use]
    pub fn typed(&self, name: &str) -> (found: Option<&TypedEvent>)
        ensures
            match found {
                Some(t) => self@.typed.contains_key(name@) && self@.typed[name@] == optional_view(
                    t.default,
                ) && t.name@ == name@,
                None => !self@.typed.contains_key(name@),
            },
    {
        proof {
            use_type_invariant(self);
        }
        self.typed.get(name)
    }

    proof fn same_domains(&self)
        ensures
            forall|k: Seq<char>| #[trigger]
                self@.typed.contains_key(k) <==> self.typed@.contains_key(k),
            forall|k: Seq<char>| #[trigger]
                self@.dynamic.contains_key(k) <==> self.dynamic@.contains_key(k),
    {
    }

    /// The names of the typed channels, in order.
    pub fn typed_names(&self) -> (names: Vec<String>)
        ensures
            text::texts(names@) == dict::ascending_keys(self@.typed),
            forall|k: Seq<char>| #[trigger]
                self@.typed.contains_key(k) <==> text::texts(names@).contains(k),
            dict::strictly_ascending(text::texts(names@)),
    {
        let names = self.typed.keys();
        proof {
            self.same_domains();
            dict::ascending_keys_are(self@.typed, self.typed.spec_keys());
        }
        names
    }

    /// The names of the dynamic channels, in order.
    pub fn dynamic_names(&self) -> (names: Vec<String>)
        ensures
            text::texts(names@) == dict::ascending_keys(self@.dynamic),
            forall|k: Seq<char>| #[trigger]
                self@.dynamic.contains_key(k) <==> text::texts(names@).contains(k),
            dict::strictly_ascending(text::texts(names@)),
    {
        let names = self.dynamic.keys();
        proof {
            self.same_domains();
            dict::ascending_keys_are(self@.dynamic, self.dynamic.spec_keys());
        }
        names
    }

    /// Every name: those of the typed channels in order, then those of the dynamic ones.
    pub fn names(&self) -> (names: Vec<String>)
        ensures
            text::texts(names@) == dict::ascending_keys(self@.typed) + dict::ascending_keys(
                self@.dynamic,
            ),
    {
        let mut names = self.typed_names();
        let mut more = self.dynamic_names();
        let ghost a = names@;
        let ghost b = more@;
        names.append(&mut more);
        assert(text::texts(names@) =~= text::texts(a) + text::texts(b));
        names
    }
}

/// A typed channel within a tick: the events read so far, and whether they were pulled in.
struct TypedChannelState {
    frame_cache: Vec<Value>,
    primed: bool,
}

/// The content of a typed channel within a tick.
#[verifier::ext_equal]
pub struct Frame {
    pub events: Seq<Json>,
    pub primed: bool,
}

/// What was pulled in from the host for a typed channel: the events and, if it broke off, why.
pub struct Pulled {
    pub events: Vec<Value>,
    pub failure: Option<EventError>,
}

/// The events of one virtual machine in one tick.
pub struct EventStore {
    typed: Dict<TypedChannelState>,
    dynamic: Dict<DynEventBuffer>,
}

/// The content of an [`EventStore`].
#[verifier::ext_equal]
pub struct Events {
    pub typed: Map<Seq<char>, Frame>,
    pub dynamic: Map<Seq<char>, Seq<Json>>,
}

impl View for EventStore {
    type V = Events;

    closed spec fn view(&self) -> Events {
        Events {
            typed: self.typed@.map_values(
                |t: TypedChannelState|
                    Frame { events: value::items_view(t.frame_cache@), primed: t.primed },
            ),
            dynamic: self.dynamic@.map_values(|b: DynEventBuffer| b@),
        }
    }
}

impl Events {
    /// Why a read or an emit on a typed channel is refused.
    pub open spec fn refuses_typed(self, name: Seq<char>, e: EventError) -> bool {
        !self.typed.contains_key(name) && if self.dynamic.contains_key(name) {
            e is KindMismatch && e->KindMismatch_name@ == name
        } else {
            e is UnknownEvent && e->UnknownEvent_name@ == name
        }
    }

    /// Why a push or a drain on a dynamic channel is refused.
    pub open spec fn refuses_dynamic(self, name: Seq<char>, e: EventError) -> bool {
        if self.typed.contains_key(name) {
            e is KindMismatch && e->KindMismatch_name@ == name
        } else {
            !self.dynamic.contains_key(name) && e is UnknownEvent && e->UnknownEvent_name@ == name
        }
    }

    /// The store after a read of a typed channel for which the host gave `pulled`, with or without
    /// success. Once a read has succeeded, what the host gives counts no more in this tick.
    pub open spec fn after_read(self, name: Seq<char>, pulled: Seq<Json>, success: bool) -> Events {
        let frame = self.typed[name];
        if frame.primed {
            self
        } else {
            Events {
                typed: self.typed.insert(
                    name,
                    Frame { events: frame.events + pulled, primed: success },
                ),
                ..self
            }
        }
    }

    /// The store after an event was added to a dynamic channel.
    pub open spec fn pushed(self, name: Seq<char>, event: Json) -> Events {
        Events { dynamic: self.dynamic.insert(name, self.dynamic[name].push(event)), ..self }
    }

    /// The store after the events of a dynamic channel were taken out.
    pub open spec fn drained(self, name: Seq<char>) -> Events {
        Events { dynamic: self.dynamic.insert(name, Seq::empty()), ..self }
    }

    /// The store at the end of a tick: the same channels, all of them empty.
    pub open spec fn emptied(self) -> Events {
        Events {
            typed: self.typed.map_values(
                |f: Frame| Frame { events: Seq::<Json>::empty(), primed: false },
            ),
            dynamic: self.dynamic.map_values(|b: Seq<Json>| Seq::<Json>::empty()),
        }
    }
}

/// Whether a pull that starts from one state of the host leads to the other and gives `pulled`.
pub open spec fn is_pull<W, F: FnOnce(W) -> (W, Pulled)>(
    pull: F,
    host: W,
    after: W,
    pulled: Pulled,
) -> bool {
    pull.ensures((host,), (after, pulled))
}

/// Whether handing `event` to the host leads from one of its states to the other and gives `sent`.
pub open spec fn is_sent<W, F: FnOnce(W, Value) -> (W, Result<(), EventError>)>(
    send: F,
    host: W,
    event: Value,
    after: W,
    sent: Result<(), EventError>,
) -> bool {
    send.ensures((host, event), (after, sent))
}

/// Fresh channels of these names.
fn fresh_typed(names: &Vec<String>) -> (channels: Dict<TypedChannelState>)
    ensures
        forall|k: Seq<char>| #[trigger]
            channels@.contains_key(k) <==> text::texts(names@).contains(k),
        forall|k: Seq<char>| #[trigger]
            channels@.contains_key(k) ==> channels@[k].frame_cache@.len() == 0
                && !channels@[k].primed,
{
    let ghost all = text::texts(names@);
    let mut channels: Dict<TypedChannelState> = Dict::new();
    let mut i: usize = 0;
    while i < names.len()
        invariant
            i <= names.len(),
            all == text::texts(names@),
            forall|k: Seq<char>| #[trigger]
                channels@.contains_key(k) <==> all.take(i as int).contains(k),
            forall|k: Seq<char>| #[trigger]
                channels@.contains_key(k) ==> channels@[k].frame_cache@.len() == 0
                    && !channels@[k].primed,
        decreases names.len() - i,
    {
        let ghost before = channels@;
        channels.insert(
            names[i].clone(),
            TypedChannelState { frame_cache: Vec::new(), primed: false },
        );
        proof {
            text::take_one_more(all, i as int);
        }
        i += 1;
    }
    assert(all.take(all.len() as int) =~= all);
    channels
}

/// Fresh buffers of these names.
fn fresh_dynamic(names: &Vec<String>) -> (buffers: Dict<DynEventBuffer>)
    ensures
        forall|k: Seq<char>| #[trigger]
            buffers@.contains_key(k) <==> text::texts(names@).contains(k),
        forall|k: Seq<char>| #[trigger]
            buffers@.contains_key(k) ==> buffers@[k]@ == Seq::<Json>::empty(),
{
    let ghost all = text::texts(names@);
    let mut buffers: Dict<DynEventBuffer> = Dict::new();
    let mut i: usize = 0;
    while i < names.len()
        invariant
            i <= names.len(),
            all == text::texts(names@),
            forall|k: Seq<char>| #[trigger]
                buffers@.contains_key(k) <==> all.take(i as int).contains(k),
            forall|k: Seq<char>| #[trigger]
                buffers@.contains_key(k) ==> buffers@[k]@ == Seq::<Json>::empty(),
        decreases names.len() - i,
    {
        buffers.insert(names[i].clone(), DynEventBuffer::new());
        proof {
            text::take_one_more(all, i as int);
        }
        i += 1;
    }
    assert(all.take(all.len() as int) =~= all);
    buffers
}

impl EventStore {
    /// A store with one empty channel for each that is registered.
    #[must_use]
    pub fn new(registry: &EventRegistry) -> (store: Self)
        ensures
            store@.typed == registry@.typed.map_values(
                |d: Option<Json>| Frame { events: Seq::<Json>::empty(), primed: false },
            ),
            store@.dynamic == registry@.dynamic.map_values(|d: Json| Seq::<Json>::empty()),
    {
        let store = EventStore {
            typed: fresh_typed(&registry.typed_names()),
            dynamic: fresh_dynamic(&registry.dynamic_names()),
        };
        proof {
            let typed = registry@.typed.map_values(
                |d: Option<Json>| Frame { events: Seq::<Json>::empty(), primed: false },
            );
            assert forall|k: Seq<char>| #[trigger] typed.dom().contains(k) <==> store@.typed.dom().contains(k) by {
                assert(store@.typed.contains_key(k) == store.typed@.contains_key(k));
                assert(registry@.typed.contains_key(k) == typed.contains_key(k));
            }
            assert forall|k: Seq<char>| #[trigger] store@.typed.contains_key(k) implies store@.typed[k] =~= (Frame { events: Seq::<Json>::empty(), primed: false }) by {
                assert(store.typed@.contains_key(k));
                assert(value::items_view(store.typed@[k].frame_cache@) =~= Seq::<Json>::empty());
            }
            assert(store@.typed =~= typed);
            let dynamic = registry@.dynamic.map_values(|d: Json| Seq::<Json>::empty());
            assert forall|k: Seq<char>| #[trigger] dynamic.dom().contains(k) <==> store@.dynamic.dom().contains(k) by {
                assert(store@.dynamic.contains_key(k) == store.dynamic@.contains_key(k));
                assert(registry@.dynamic.contains_key(k) == dynamic.contains_key(k));
            }
            assert forall|k: Seq<char>| #[trigger] store@.dynamic.contains_key(k) implies store@.dynamic[k] == Seq::<Json>::empty() by {
                assert(store.dynamic@.contains_key(k));
            }
            assert(store@.dynamic =~= dynamic);
        }
        store
    }

    /// The events of a typed channel in this tick. The first read of the tick pulls them in from
    /// the host; every later one sees the same events, and leaves what the host has got since where
    /// it is. A pull that fails leaves what it got before it did, and the next read tries again.
    pub fn read_typed<W, F: FnOnce(W) -> (W, Pulled)>(&mut self, name: &str, host: W, pull: F) -> (
        read: (W, Result<Vec<Value>, EventError>))
        requires
            pull.requires((host,)),
        ensures
            if !old(self)@.typed.contains_key(name@) {
                read.0 == host && final(self)@ == old(self)@ && read.1 is Err && old(
                    self,
                )@.refuses_typed(name@, read.1->Err_0)
            } else if old(self)@.typed[name@].primed {
                read.0 == host && final(self)@ == old(self)@ && read.1 is Ok && value::items_view(
                    read.1->Ok_0@,
                ) == final(self)@.typed[name@].events
            } else {
                exists|pulled: Pulled|
                    {
                        &&& #[trigger] is_pull(pull, host, read.0, pulled)
                        &&& final(self)@ == old(self)@.after_read(
                            name@,
                            value::items_view(pulled.events@),
                            pulled.failure is None,
                        )
                        &&& match read.1 {
                            Ok(list) => pulled.failure is None && value::items_view(list@)
                                == final(self)@.typed[name@].events,
                            Err(e) => pulled.failure == Some(e),
                        }
                    }
            },
    {
        let ghost first = host;
        let mut host = host;
        match self.typed.remove(name) {
            Some(state) => {
                let TypedChannelState { frame_cache, primed } = state;
                let mut frame_cache = frame_cache;
                let mut primed = primed;
                let ghost before = value::items_view(frame_cache@);
                let ghost was = primed;
                let mut failure: Option<EventError> = None;
                let ghost mut got = Pulled { events: frame_cache, failure: None };
                if !primed {
                    let (after, pulled) = pull(host);
                    host = after;
                    proof {
                        got = pulled;
                    }
                    let Pulled { events, failure: why } = pulled;
                    let mut events = events;
                    let ghost new = events@;
                    let ghost cached = frame_cache@;
                    frame_cache.append(&mut events);
                    assert(value::items_view(frame_cache@) =~= before + value::items_view(new));
                    primed = why.is_none();
                    failure = why;
                }
                let copy = value::copy_values(&frame_cache);
                self.typed.insert(name.to_owned(), TypedChannelState { frame_cache, primed });
                proof {
                    assert(self@.dynamic =~= old(self)@.dynamic);
                    let frame = Frame { events: value::items_view(frame_cache@), primed };
                    assert(self@.typed =~= old(self)@.typed.insert(name@, frame));
                    if was {
                        assert(self@.typed =~= old(self)@.typed);
                    } else {
                        assert(is_pull(pull, first, host, got));
                    }
                }
                let read = match failure {
                    Some(e) => (host, Err(e)),
                    None => (host, Ok(copy)),
                };
                assert(!was ==> is_pull(pull, first, read.0, got));
                read
            },
            None => {
                proof {
                    assert(self@.typed =~= old(self)@.typed);
                }
                if self.dynamic.contains_key(name) {
                    (host, Err(EventError::KindMismatch { name: name.to_owned() }))
                } else {
                    (host, Err(EventError::UnknownEvent { name: name.to_owned() }))
                }
            },
        }
    }

    /// Hands a payload to the host for a typed channel. The host is left alone if there is no such
    /// channel.
    pub fn emit_typed<W, F: FnOnce(W, Value) -> (W, Result<(), EventError>)>(
        &self,
        name: &str,
        value: Value,
        host: W,
        emit: F,
    ) -> (done: (W, Result<(), EventError>))
        requires
            emit.requires((host, value)),
        ensures
            if self@.typed.contains_key(name@) {
                is_sent(emit, host, value, done.0, done.1)
            } else {
                done.0 == host && done.1 is Err && self@.refuses_typed(name@, done.1->Err_0)
            },
    {
        if self.typed.contains_key(name) {
            return emit(host, value);
        }
        if self.dynamic.contains_key(name) {
            (host, Err(EventError::KindMismatch { name: name.to_owned() }))
        } else {
            (host, Err(EventError::UnknownEvent { name: name.to_owned() }))
        }
    }

    /// Adds an event to a dynamic channel.
    pub fn push_dynamic(&mut self, name: &str, value: Value) -> (done: Result<(), EventError>)
        ensures
            match done {
                Ok(()) => !old(self)@.typed.contains_key(name@) && old(self)@.dynamic.contains_key(
                    name@,
                ) && final(self)@ == old(self)@.pushed(name@, value@),
                Err(e) => old(self)@.refuses_dynamic(name@, e) && final(self)@ == old(self)@,
            },
    {
        if self.typed.contains_key(name) {
            return Err(EventError::KindMismatch { name: name.to_owned() });
        }
        match self.dynamic.remove(name) {
            Some(buffer) => {
                let mut buffer = buffer;
                buffer.push(value);
                self.dynamic.insert(name.to_owned(), buffer);
                assert(self@.dynamic =~= old(self)@.dynamic.insert(
                    name@,
                    old(self)@.dynamic[name@].push(value@),
                ));
                Ok(())
            },
            None => {
                assert(self@.dynamic =~= old(self)@.dynamic);
                Err(EventError::UnknownEvent { name: name.to_owned() })
            },
        }
    }

    /// Whether there is a typed channel of this name.
    #[must_use]
    pub fn has_typed(&self, name: &str) -> (yes: bool)
        ensures
            yes == self@.typed.contains_key(name@),
    {
        self.typed.contains_key(name)
    }

    /// The buffer of a dynamic channel.
    #[must_use]
    pub fn dynamic_buffer(&self, name: &str) -> (found: Option<&DynEventBuffer>)
        ensures
            match found {
                Some(b) => self@.dynamic.contains_key(name@) && self@.dynamic[name@] == b@,
                None => !self@.dynamic.contains_key(name@),
            },
    {
        self.dynamic.get(name)
    }

    /// Takes out the events of a dynamic channel.
    pub fn drain_dynamic(&mut self, name: &str) -> (drained: Result<Vec<Value>, EventError>)
        ensures
            match drained {
                Ok(events) => !old(self)@.typed.contains_key(name@) && old(
                    self,
                )@.dynamic.contains_key(name@) && value::items_view(events@) == old(
                    self,
                )@.dynamic[name@] && final(self)@ == old(self)@.drained(name@),
                Err(e) => old(self)@.refuses_dynamic(name@, e) && final(self)@ == old(self)@,
            },
    {
        if self.typed.contains_key(name) {
            return Err(EventError::KindMismatch { name: name.to_owned() });
        }
        match self.dynamic.remove(name) {
            Some(buffer) => {
                let mut buffer = buffer;
                let events = buffer.drain();
                self.dynamic.insert(name.to_owned(), buffer);
                assert(self@.dynamic =~= old(self)@.dynamic.insert(name@, Seq::empty()));
                Ok(events)
            },
            None => {
                assert(self@.dynamic =~= old(self)@.dynamic);
                Err(EventError::UnknownEvent { name: name.to_owned() })
            },
        }
    }

    /// Ends a tick: every channel is empty, and typed channels pull in anew when next read.
    pub fn end_tick_all(&mut self)
        ensures
            final(self)@ == old(self)@.emptied(),
    {
        let typed_names = self.typed.keys();
        let dynamic_names = self.dynamic.keys();
        let ghost before = *self;
        self.typed = fresh_typed(&typed_names);
        self.dynamic = fresh_dynamic(&dynamic_names);
        proof {
            let typed = old(self)@.emptied().typed;
            assert forall|k: Seq<char>| #[trigger] typed.dom().contains(k) <==> self@.typed.dom().contains(k) by {
                assert(self@.typed.contains_key(k) == self.typed@.contains_key(k));
                assert(before.typed@.contains_key(k) == typed.contains_key(k));
            }
            assert forall|k: Seq<char>| #[trigger] self@.typed.contains_key(k) implies self@.typed[k] =~= typed[k] by {
                assert(self.typed@.contains_key(k));
                assert(value::items_view(self.typed@[k].frame_cache@) =~= Seq::<Json>::empty());
            }
            assert(self@.typed =~= typed);
            let dynamic = old(self)@.emptied().dynamic;
            assert forall|k: Seq<char>| #[trigger] dynamic.dom().contains(k) <==> self@.dynamic.dom().contains(k) by {
                assert(self@.dynamic.contains_key(k) == self.dynamic@.contains_key(k));
                assert(before.dynamic@.contains_key(k) == dynamic.contains_key(k));
            }
            assert forall|k: Seq<char>| #[trigger] self@.dynamic.contains_key(k) implies self@.dynamic[k] == dynamic[k] by {
                assert(self.dynamic@.contains_key(k));
            }
            assert(self@.dynamic =~= dynamic);
        }
    }
}

/// Within a tick every read of a typed channel after the first that succeeds sees the same events,
/// whatever has reached the host since.
pub proof fn reads_of_a_tick_agree(s: Events, name: Seq<char>, first: Seq<Json>, later: Seq<Json>, ok: bool)
    requires
        s.typed.contains_key(name),
    ensures
        s.after_read(name, first, true).after_read(name, later, ok) == s.after_read(
            name,
            first,
            true,
        ),
{
}

/// What reaches the host after the first read of a tick is not lost: no read of this tick asks the
/// host for it, and the first read after the tick gets exactly what the host gives then.
pub proof fn a_new_tick_reads_afresh(
    s: Events,
    name: Seq<char>,
    first: Seq<Json>,
    later: Seq<Json>,
)
    requires
        s.typed.contains_key(name),
    ensures
        s.after_read(name, first, true).typed[name].primed,
        !s.after_read(name, first, true).emptied().typed[name].primed,
        s.after_read(name, first, true).emptied().after_read(name, later, true).typed[name].events
            == later,
{
    let ended = s.after_read(name, first, true).emptied();
    assert(ended.typed.contains_key(name));
    assert(Seq::<Json>::empty() + later =~= later);
}

/// What is emitted on a dynamic channel can be read in the same tick, after what was emitted
/// before it; other channels do not change.
pub proof fn an_emitted_event_is_there(s: Events, name: Seq<char>, event: Json, other: Seq<char>)
    requires
        s.dynamic.contains_key(name),
    ensures
        s.pushed(name, event).dynamic[name] == s.dynamic[name].push(event),
        s.pushed(name, event).typed == s.typed,
        other != name ==> s.pushed(name, event).dynamic[other] == s.dynamic[other],
        s.drained(name).pushed(name, event).dynamic[name] == seq![event],
{
    assert(Seq::<Json>::empty().push(event) =~= seq![event]);
}

/// The end of a tick keeps the channels and forgets every event, and ending it twice is the same
/// as once.
pub proof fn a_tick_ends_empty(s: Events, name: Seq<char>)
    ensures
        s.emptied().typed.dom() == s.typed.dom(),
        s.emptied().dynamic.dom() == s.dynamic.dom(),
        s.dynamic.contains_key(name) ==> s.emptied().dynamic[name] == Seq::<Json>::empty(),
        s.typed.contains_key(name) ==> s.emptied().typed[name] == (Frame {
            events: Seq::empty(),
            primed: false,
        }),
        s.emptied().emptied() == s.emptied(),
{
    assert(s.emptied().typed.dom() =~= s.typed.dom());
    assert(s.emptied().dynamic.dom() =~= s.dynamic.dom());
    assert(s.emptied().emptied().typed =~= s.emptied().typed);
    assert(s.emptied().emptied().dynamic =~= s.emptied().dynamic);
}

/// What is emitted is what is sent: on every channel, with or without a default, a payload that
/// is no object stands as it is, and each field of an object payload keeps its value. Only the
/// fields that an object default has and the payload lacks are filled in.
pub proof fn a_payload_is_never_lost(payload: Json, default: Option<Json>, key: Seq<char>)
    ensures
        default is None ==> with_default(payload, default) == payload,
        !(payload is Object) ==> with_default(payload, default) == payload,
        payload is Object ==> ({
            let event = with_default(payload, default);
            let filled = default is Some && default->Some_0 is Object
                && default->Some_0->Object_0.contains_key(key);
            &&& event is Object
            &&& event->Object_0.contains_key(key) <==> payload->Object_0.contains_key(key) || filled
            &&& payload->Object_0.contains_key(key) ==> event->Object_0[key]
                == payload->Object_0[key]
            &&& filled && !payload->Object_0.contains_key(key) ==> event->Object_0[key]
                == default->Some_0->Object_0[key]
        }),
        payload is Object && default is Some && !(default->Some_0 is Object) ==> with_default(
            payload,
            default,
        ) == payload,
{
}

/// A read of a typed channel adds what the host gave behind what was there, each event in its
/// place, and touches no other channel.
pub proof fn a_read_touches_one_channel(
    s: Events,
    name: Seq<char>,
    pulled: Seq<Json>,
    success: bool,
    other: Seq<char>,
    i: int,
)
    requires
        s.typed.contains_key(name),
        !s.typed[name].primed,
    ensures
        ({
            let after = s.after_read(name, pulled, success);
            let was = s.typed[name].events;
            &&& after.dynamic == s.dynamic
            &&& after.typed.dom() == s.typed.dom()
            &&& other != name && s.typed.contains_key(other) ==> after.typed[other]
                == s.typed[other]
            &&& after.typed[name].primed == success
            &&& after.typed[name].events.len() == was.len() + pulled.len()
            &&& 0 <= i < was.len() ==> after.typed[name].events[i] == was[i]
            &&& 0 <= i < pulled.len() ==> after.typed[name].events[was.len() + i] == pulled[i]
        }),
{
    assert(s.after_read(name, pulled, success).typed.dom() =~= s.typed.dom());
}

/// Adding to a dynamic channel or taking from it keeps the set of channels and every other
/// channel; events come out in the order in which they went in, and once only.
pub proof fn dynamic_events_keep_their_order(
    s: Events,
    name: Seq<char>,
    first: Json,
    second: Json,
    other: Seq<char>,
)
    requires
        s.dynamic.contains_key(name),
    ensures
        ({
            let after = s.pushed(name, first).pushed(name, second);
            let n = s.dynamic[name].len();
            &&& after.dynamic.dom() == s.dynamic.dom()
            &&& after.typed == s.typed
            &&& after.dynamic[name].len() == n + 2
            &&& after.dynamic[name].take(n as int) == s.dynamic[name]
            &&& after.dynamic[name][n as int] == first
            &&& after.dynamic[name][n as int + 1] == second
        }),
        s.drained(name).dynamic.dom() == s.dynamic.dom(),
        s.drained(name).typed == s.typed,
        s.drained(name).dynamic[name].len() == 0,
        other != name && s.dynamic.contains_key(other) ==> s.drained(name).dynamic[other]
            == s.dynamic[other] && s.pushed(name, first).dynamic[other] == s.dynamic[other],
{
    let after = s.pushed(name, first).pushed(name, second);
    assert(after.dynamic.dom() =~= s.dynamic.dom());
    assert(s.drained(name).dynamic.dom() =~= s.dynamic.dom());
    assert(after.dynamic[name].take(s.dynamic[name].len() as int) =~= s.dynamic[name]);
}

/// An operation on a channel of the other kind is told apart from one on no channel at all.
pub proof fn refusals_tell_the_kinds_apart(s: Events, name: Seq<char>, e: EventError)
    ensures
        s.refuses_typed(name, e) ==> !s.typed.contains_key(name) && (e is KindMismatch
            <==> s.dynamic.contains_key(name)) && (e is UnknownEvent
            <==> !s.dynamic.contains_key(name)),
        s.refuses_dynamic(name, e) ==> (e is KindMismatch <==> s.typed.contains_key(name)) && (
        e is UnknownEvent <==> !s.typed.contains_key(name) && !s.dynamic.contains_key(name)),
        s.refuses_typed(name, e) || s.refuses_dynamic(name, e) ==> match e {
            EventError::KindMismatch { name: told } => told@ == name,
            EventError::UnknownEvent { name: told } => told@ == name,
            _ => false,
        },
{
}

/// What is sent keeps the payload: without a default it is the payload, and with one it has every
/// field of an object payload; a payload that is no object is sent as it is.
pub proof fn what_is_sent_keeps_the_payload(
    payload: Value,
    default: Option<&Value>,
    sent: Value,
    key: Seq<char>,
)
    requires
        call_ensures(merge_with_default, (payload, default), sent),
    ensures
        default is None ==> sent@ == payload@,
        !(payload@ is Object) ==> sent@ == payload@,
        payload@ is Object ==> sent@ is Object,
        payload@ is Object && payload@->Object_0.contains_key(key) ==> sent@->Object_0.contains_key(
            key,
        ) && sent@->Object_0[key] == payload@->Object_0[key],
        payload@ is Object && !payload@->Object_0.contains_key(key)
            && sent@->Object_0.contains_key(key) ==> default is Some && default->Some_0@ is Object
            && default->Some_0@->Object_0.contains_key(key) && sent@->Object_0[key]
            == default->Some_0@->Object_0[key],
{
    let under = match default {
        Some(d) => Some(d@),
        None => None,
    };
    a_payload_is_never_lost(payload@, under, key);
}

/// Events that are added to a dynamic channel come out in the order in which they went in, behind
/// those that were there, and the channel is empty then. Other channels do not change.
pub proof fn added_events_come_out_in_order(
    s1: &mut EventStore,
    s2: &mut EventStore,
    s3: &mut EventStore,
    name: &str,
    first: Value,
    second: Value,
    drained: Result<Vec<Value>, EventError>,
    i: int,
    other: Seq<char>,
)
    requires
        call_ensures(EventStore::push_dynamic, (s1, name, first), Ok::<(), EventError>(())),
        final(s1)@ == old(s2)@,
        call_ensures(EventStore::push_dynamic, (s2, name, second), Ok::<(), EventError>(())),
        final(s2)@ == old(s3)@,
        call_ensures(EventStore::drain_dynamic, (s3, name), drained),
    ensures
        drained is Ok,
        ({
            let n = old(s1)@.dynamic[name@].len();
            let out = drained->Ok_0@;
            &&& out.len() == n + 2
            &&& 0 <= i < n ==> out[i]@ == old(s1)@.dynamic[name@][i]
            &&& out[n as int]@ == first@
            &&& out[n as int + 1]@ == second@
        }),
        final(s3)@.dynamic[name@].len() == 0,
        final(s3)@.typed == old(s1)@.typed,
        other != name@ && old(s1)@.dynamic.contains_key(other) ==> final(s3)@.dynamic[other]
            == old(s1)@.dynamic[other],
{
    let n = old(s1)@.dynamic[name@].len();
    let out = drained->Ok_0@;
    let all = old(s1)@.dynamic[name@].push(first@).push(second@);
    assert(value::items_view(out) == all);
    assert(value::items_view(out).len() == out.len());
    assert(value::items_view(out)[n as int] == out[n as int]@);
    assert(value::items_view(out)[n as int + 1] == out[n as int + 1]@);
    if 0 <= i < n {
        assert(value::items_view(out)[i] == out[i]@);
    }
}

/// A channel that was registered is found under its name, as its kind and with its default, and no
/// second channel of either kind can take the name.
pub proof fn registered_channels_are_found(
    r1: &mut EventRegistry,
    r2: &mut EventRegistry,
    after: &EventRegistry,
    name: &str,
    default: Value,
    again: Option<Value>,
    second: Result<(), EventError>,
    found: Option<EventKind<'_>>,
)
    requires
        call_ensures(EventRegistry::register_dynamic, (r1, name, default), Ok::<(), EventError>(())),
        final(r1)@ == old(r2)@,
        call_ensures(EventRegistry::register_typed, (r2, name, again), second),
        after@ == final(r2)@,
        call_ensures(EventRegistry::resolve, (after, name), found),
    ensures
        second is Err,
        second->Err_0 is KindMismatch,
        found is Some,
        found->Some_0 is Dynamic,
        found->Some_0->Dynamic_0.default@ == default@,
{
}

/// A typed channel that was registered is found as one, with its default if it has one.
pub proof fn registered_typed_channels_are_found(
    registry: &mut EventRegistry,
    after: &EventRegistry,
    name: &str,
    default: Option<Value>,
    found: Option<EventKind<'_>>,
)
    requires
        call_ensures(
            EventRegistry::register_typed,
            (registry, name, default),
            Ok::<(), EventError>(()),
        ),
        after@ == final(registry)@,
        call_ensures(EventRegistry::resolve, (after, name), found),
    ensures
        found is Some,
        found->Some_0 is Typed,
        found->Some_0->Typed_0.name@ == name@,
        default is None ==> found->Some_0->Typed_0.default is None,
        default is Some ==> found->Some_0->Typed_0.default is Some
            && found->Some_0->Typed_0.default->Some_0@ == default->Some_0@,
{
    assert(after@.typed[name@] == optional_view(default));
}

/// A new store has an empty channel for each that is registered, and none for any other name.
pub proof fn stores_start_with_empty_channels(
    registry: &EventRegistry,
    store: EventStore,
    name: Seq<char>,
)
    requires
        call_ensures(EventStore::new, (registry,), store),
    ensures
        store@.dynamic.contains_key(name) <==> registry@.dynamic.contains_key(name),
        store@.typed.contains_key(name) <==> registry@.typed.contains_key(name),
        store@.dynamic.contains_key(name) ==> store@.dynamic[name].len() == 0,
        store@.typed.contains_key(name) ==> store@.typed[name].events.len() == 0
            && !store@.typed[name].primed,
{
}

/// The end of a tick leaves every channel there, and empty.
pub proof fn ended_ticks_leave_empty_channels(store: &mut EventStore, name: Seq<char>)
    requires
        call_ensures(EventStore::end_tick_all, (store,), ()),
    ensures
        final(store)@.dynamic.contains_key(name) <==> old(store)@.dynamic.contains_key(name),
        final(store)@.typed.contains_key(name) <==> old(store)@.typed.contains_key(name),
        final(store)@.dynamic.contains_key(name) ==> final(store)@.dynamic[name].len() == 0,
        final(store)@.typed.contains_key(name) ==> final(store)@.typed[name].events.len() == 0
            && !final(store)@.typed[name].primed,
{
    a_tick_ends_empty(old(store)@, name);
    assert(old(store)@.emptied().dynamic.dom().contains(name)
        == old(store)@.dynamic.dom().contains(name));
    assert(old(store)@.emptied().typed.dom().contains(name)
        == old(store)@.typed.dom().contains(name));
}

/// What is added to a buffer is taken out of it, behind what was there, and the buffer is empty
/// then.
pub proof fn buffers_give_what_they_got(
    buffer: &mut DynEventBuffer,
    event: Value,
    then: &mut DynEventBuffer,
    taken: Vec<Value>,
    i: int,
)
    requires
        call_ensures(DynEventBuffer::push, (buffer, event), ()),
        final(buffer)@ == old(then)@,
        call_ensures(DynEventBuffer::drain, (then,), taken),
    ensures
        taken@.len() == old(buffer)@.len() + 1,
        0 <= i < old(buffer)@.len() ==> taken@[i]@ == old(buffer)@[i],
        taken@.last()@ == event@,
        final(then)@.len() == 0,
{
    let all = value::items_view(taken@);
    assert(all.len() == taken@.len());
    assert(all.last() == taken@.last()@);
    if 0 <= i < old(buffer)@.len() {
        assert(all[i] == taken@[i]@);
    }
}

/// A typed channel is pulled in once in a tick: after a read that succeeded, a second one gives the
/// same events and leaves the host and the store alone.
pub proof fn later_reads_see_the_same<W, F: FnOnce(W) -> (W, Pulled)>(
    store: &mut EventStore,
    name: &str,
    host: W,
    pull: F,
    read: (W, Result<Vec<Value>, EventError>),
    then: &mut EventStore,
    later: W,
    again: F,
    reread: (W, Result<Vec<Value>, EventError>),
    i: int,
)
    requires
        call_ensures(EventStore::read_typed::<W, F>, (store, name, host, pull), read),
        read.1 is Ok,
        final(store)@ == old(then)@,
        call_ensures(EventStore::read_typed::<W, F>, (then, name, later, again), reread),
    ensures
        reread.1 is Ok,
        reread.1->Ok_0@.len() == read.1->Ok_0@.len(),
        0 <= i < read.1->Ok_0@.len() ==> reread.1->Ok_0@[i]@ == read.1->Ok_0@[i]@,
        reread.0 == later,
        final(then)@ == final(store)@,
{
    let first = value::items_view(read.1->Ok_0@);
    let second = value::items_view(reread.1->Ok_0@);
    assert(old(store)@.typed.contains_key(name@));
    if !old(store)@.typed[name@].primed {
        let pulled = choose|pulled: Pulled|
            {
                &&& #[trigger] is_pull(pull, host, read.0, pulled)
                &&& final(store)@ == old(store)@.after_read(
                    name@,
                    value::items_view(pulled.events@),
                    pulled.failure is None,
                )
                &&& match read.1 {
                    Ok(list) => pulled.failure is None && value::items_view(list@)
                        == final(store)@.typed[name@].events,
                    Err(e) => pulled.failure == Some(e),
                }
            };
        a_read_touches_one_channel(
            old(store)@,
            name@,
            value::items_view(pulled.events@),
            true,
            name@,
            0,
        );
    }
    assert(first == second);
    assert(first.len() == read.1->Ok_0@.len() && second.len() == reread.1->Ok_0@.len());
    if 0 <= i < first.len() {
        assert(first[i] == read.1->Ok_0@[i]@);
        assert(second[i] == reread.1->Ok_0@[i]@);
    }
}

/// What a typed read brings from the host comes behind what an earlier, failed read of the tick had
/// brought, in the order of the host; a read that fails gives the reason of the host.
pub proof fn pulled_events_come_in_order<W, F: FnOnce(W) -> (W, Pulled)>(
    store: &mut EventStore,
    name: &str,
    host: W,
    pull: F,
    read: (W, Result<Vec<Value>, EventError>),
    given: Pulled,
    i: int,
)
    requires
        call_ensures(EventStore::read_typed::<W, F>, (store, name, host, pull), read),
        old(store)@.typed.contains_key(name@),
        !old(store)@.typed[name@].primed,
        forall|after: W, pulled: Pulled| #[trigger]
            pull.ensures((host,), (after, pulled)) ==> pulled == given,
    ensures
        read.1 is Err <==> given.failure is Some,
        read.1 is Err ==> given.failure == Some(read.1->Err_0),
        ({
            let was = old(store)@.typed[name@].events;
            let now = final(store)@.typed[name@].events;
            &&& now.len() == was.len() + given.events@.len()
            &&& 0 <= i < was.len() ==> now[i] == was[i]
            &&& 0 <= i < given.events@.len() ==> now[was.len() + i] == given.events@[i]@
            &&& read.1 is Ok ==> read.1->Ok_0@.len() == now.len()
            &&& read.1 is Ok && 0 <= i < now.len() ==> read.1->Ok_0@[i]@ == now[i]
        }),
        final(store)@.dynamic == old(store)@.dynamic,
{
    let pulled = choose|pulled: Pulled|
        {
            &&& #[trigger] is_pull(pull, host, read.0, pulled)
            &&& final(store)@ == old(store)@.after_read(
                name@,
                value::items_view(pulled.events@),
                pulled.failure is None,
            )
            &&& match read.1 {
                Ok(list) => pulled.failure is None && value::items_view(list@)
                    == final(store)@.typed[name@].events,
                Err(e) => pulled.failure == Some(e),
            }
        };
    assert(pull.ensures((host,), (read.0, pulled)));
    let brought = value::items_view(given.events@);
    assert(brought.len() == given.events@.len());
    a_read_touches_one_channel(old(store)@, name@, brought, given.failure is None, name@, i);
    if 0 <= i < brought.len() {
        assert(brought[i] == given.events@[i]@);
    }
    if read.1 is Ok {
        let all = value::items_view(read.1->Ok_0@);
        assert(all.len() == read.1->Ok_0@.len());
        if 0 <= i < all.len() {
            assert(all[i] == read.1->Ok_0@[i]@);
        }
    }
}

/// An event for a typed channel is handed to the host as it is, and what the host answers is the
/// answer; without such a channel the host is left alone.
pub proof fn typed_events_are_handed_over<W, F: FnOnce(W, Value) -> (W, Result<(), EventError>)>(
    store: &EventStore,
    name: &str,
    event: Value,
    host: W,
    emit: F,
    done: (W, Result<(), EventError>),
)
    requires
        call_ensures(EventStore::emit_typed::<W, F>, (store, name, event, host, emit), done),
    ensures
        store@.typed.contains_key(name@) ==> emit.ensures((host, event), done),
        !store@.typed.contains_key(name@) ==> done.0 == host && done.1 is Err,
        !store@.typed.contains_key(name@) && store@.dynamic.contains_key(name@)
            ==> done.1->Err_0 is KindMismatch,
        !store@.typed.contains_key(name@) && !store@.dynamic.contains_key(name@)
            ==> done.1->Err_0 is UnknownEvent,
{
}

} // verus!
