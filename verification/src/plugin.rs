//! Plugins of the host: each adds event channels to a virtual machine, and connects them to the
//! engine.
use vstd::prelude::*;

use crate::error::VmError;
use crate::event::Channels;
use crate::value::{Json, Value};
use crate::vm::instance::VmInstanceBuilder;

pub mod cursor;
pub mod input;
pub mod picking;

verus! {

/// A plugin of the host, as far as a virtual machine sees it.
pub trait VmPlugin {
    /// Adds what the plugin needs to a virtual machine that is being put together.
    fn build_vm(&self, builder: VmInstanceBuilder) -> (built: Result<VmInstanceBuilder, VmError>);
}

/// What can take a plugin.
pub trait BuilderVmPluginExt: Sized {
    /// Adds what `plugin` needs.
    fn add_plugin<P: VmPlugin>(self, plugin: &P) -> (built: Result<Self, VmError>);
}

impl BuilderVmPluginExt for VmInstanceBuilder {
    fn add_plugin<P: VmPlugin>(self, plugin: &P) -> (built: Result<Self, VmError>)
        ensures
            call_ensures(P::build_vm, (plugin, self), built),
    {
        plugin.build_vm(self)
    }
}

/// The channels there are after the first `n` typed ones were added, and the one whose name was
/// taken already, if one was: nothing is added from there on.
pub open spec fn with_typed(
    channels: Channels,
    added: Seq<(Seq<char>, Option<Json>)>,
    n: nat,
) -> (Channels, Option<int>)
    decreases n,
{
    if n == 0 {
        (channels, None)
    } else {
        let (so_far, clash) = with_typed(channels, added, (n - 1) as nat);
        if clash is Some {
            (so_far, clash)
        } else if so_far.taken(added[n - 1].0) {
            (so_far, Some(n - 1))
        } else {
            (
                Channels { typed: so_far.typed.insert(added[n - 1].0, added[n - 1].1), ..so_far },
                None,
            )
        }
    }
}

/// Whether adding typed channels to a builder gives `built`: all of them if their names are free,
/// else the error about the first that is not.
pub open spec fn added_all(
    before: Channels,
    added: Seq<(Seq<char>, Option<Json>)>,
    built: Result<VmInstanceBuilder, VmError>,
) -> bool {
    let (after, clash) = with_typed(before, added, added.len());
    match clash {
        None => built is Ok && built->Ok_0.events@ == after,
        Some(i) => {
            &&& built is Err
            &&& built->Err_0 is Event
            &&& built->Err_0->Event_0 is KindMismatch
            &&& built->Err_0->Event_0->KindMismatch_name@ == added[i].0
        },
    }
}

proof fn first_taken_counts(
    channels: Channels,
    added: Seq<(Seq<char>, Option<Json>)>,
    n: nat,
    more: nat,
)
    requires
        n <= more,
        with_typed(channels, added, n).1 is Some,
    ensures
        with_typed(channels, added, more) == with_typed(channels, added, n),
    decreases more,
{
    if n < more {
        first_taken_counts(channels, added, n, (more - 1) as nat);
    }
}

/// A typed channel that a plugin adds.
pub struct TypedChannel {
    pub name: &'static str,
    /// The fields that a payload falls back to.
    pub default: Option<Value>,
}

pub open spec fn channel_views(channels: Seq<TypedChannel>) -> Seq<(Seq<char>, Option<Json>)> {
    channels.map_values(
        |c: TypedChannel|
            (
                c.name@,
                match c.default {
                    Some(v) => Some(v@),
                    None => None,
                },
            ),
    )
}

/// Adds typed channels to a builder, in order.
pub fn add_channels(builder: VmInstanceBuilder, channels: &Vec<TypedChannel>) -> (built: Result<
    VmInstanceBuilder,
    VmError,
>)
    ensures
        added_all(builder.events@, channel_views(channels@), built),
{
    let ghost start = builder.events@;
    let ghost added = channel_views(channels@);
    let mut current = builder;
    let mut i: usize = 0;
    while i < channels.len()
        invariant
            i <= channels.len(),
            start == builder.events@,
            added == channel_views(channels@),
            (current.events@, None::<int>) == with_typed(start, added, i as nat),
        decreases channels.len() - i,
    {
        let channel = &channels[i];
        assert(added[i as int].0 == channel.name@);
        let next = match &channel.default {
            Some(default) => current.with_event_default(channel.name, default.clone()),
            None => current.with_event(channel.name),
        };
        match next {
            Ok(b) => {
                current = b;
                assert(current.events@ =~= with_typed(start, added, (i + 1) as nat).0);
            },
            Err(e) => {
                proof {
                    first_taken_counts(start, added, (i + 1) as nat, added.len());
                }
                return Err(e);
            },
        }
        i += 1;
    }
    Ok(current)
}

proof fn typed_so_far(
    channels: Channels,
    added: Seq<(Seq<char>, Option<Json>)>,
    n: nat,
    name: Seq<char>,
)
    requires
        n <= added.len(),
    ensures
        ({
            let (after, clash) = with_typed(channels, added, n);
            &&& after.dynamic == channels.dynamic
            &&& channels.typed.contains_key(name) ==> after.typed.contains_key(name)
                && after.typed[name] == channels.typed[name]
            &&& after.typed.contains_key(name) && !channels.typed.contains_key(name) ==> exists|
                i: int,
            | 0 <= i < n && (#[trigger] added[i]).0 == name
            &&& clash is None ==> forall|i: int|
                0 <= i < n ==> after.typed.contains_key((#[trigger] added[i]).0)
                    && after.typed[added[i].0] == added[i].1 && !channels.taken(added[i].0)
            &&& clash is Some ==> 0 <= clash->Some_0 < n && (channels.taken(
                added[clash->Some_0].0,
            ) || exists|j: int|
                0 <= j < clash->Some_0 && (#[trigger] added[j]).0 == added[clash->Some_0].0)
        }),
    decreases n,
{
    if n > 0 {
        typed_so_far(channels, added, (n - 1) as nat, name);
        let (before, clash) = with_typed(channels, added, (n - 1) as nat);
        let (after, now) = with_typed(channels, added, n);
        let last = added[n - 1];
        typed_so_far(channels, added, (n - 1) as nat, last.0);
        if clash is None && now is None {
            assert forall|i: int| 0 <= i < n implies after.typed.contains_key(
                (#[trigger] added[i]).0,
            ) && after.typed[added[i].0] == added[i].1 && !channels.taken(added[i].0) by {
                if i < n - 1 {
                    assert(before.typed.contains_key(added[i].0));
                    assert(added[i].0 != last.0);
                }
            }
        }
        if after.typed.contains_key(name) && !channels.typed.contains_key(name)
            && !before.typed.contains_key(name) {
            assert(added[n - 1].0 == name);
        }
    }
}

/// A plugin of the host that was taken in has added each of its channels, with its default, and
/// nothing else; channels that were there stay as they are.
pub proof fn plugins_add_their_channels(
    before: Channels,
    added: Seq<(Seq<char>, Option<Json>)>,
    built: Result<VmInstanceBuilder, VmError>,
    i: int,
    name: Seq<char>,
)
    requires
        added_all(before, added, built),
        built is Ok,
        0 <= i < added.len(),
    ensures
        ({
            let now = built->Ok_0.events@;
            &&& now.typed.contains_key(added[i].0) && now.typed[added[i].0] == added[i].1
            &&& !before.typed.contains_key(added[i].0) && !before.dynamic.contains_key(added[i].0)
            &&& now.dynamic == before.dynamic
            &&& before.typed.contains_key(name) ==> now.typed.contains_key(name) && now.typed[name]
                == before.typed[name]
            &&& now.typed.contains_key(name) && !before.typed.contains_key(name) ==> exists|j: int|
                0 <= j < added.len() && (#[trigger] added[j]).0 == name
        }),
{
    typed_so_far(before, added, added.len(), name);
}

/// A plugin of the host is refused only over a name: one that is taken by a channel, or by an
/// earlier channel of the plugin itself.
pub proof fn plugins_are_refused_over_taken_names(
    before: Channels,
    added: Seq<(Seq<char>, Option<Json>)>,
    built: Result<VmInstanceBuilder, VmError>,
) -> (i: int)
    requires
        added_all(before, added, built),
        built is Err,
    ensures
        0 <= i < added.len(),
        built->Err_0 is Event,
        built->Err_0->Event_0 is KindMismatch,
        built->Err_0->Event_0->KindMismatch_name@ == added[i].0,
        before.typed.contains_key(added[i].0) || before.dynamic.contains_key(added[i].0) || exists|
            j: int,
        | 0 <= j < i && (#[trigger] added[j]).0 == added[i].0,
{
    typed_so_far(before, added, added.len(), Seq::empty());
    with_typed(before, added, added.len()).1->Some_0
}

proof fn first_taken_name(
    channels: Channels,
    added: Seq<(Seq<char>, Option<Json>)>,
    n: nat,
)
    requires
        n <= added.len(),
        with_typed(channels, added, n).1 is Some,
    ensures
        ({
            let i = with_typed(channels, added, n).1->Some_0;
            &&& 0 <= i < n
            &&& with_typed(channels, added, i as nat) == (
                with_typed(channels, added, n).0,
                None::<int>,
            )
        }),
    decreases n,
{
    if with_typed(channels, added, (n - 1) as nat).1 is Some {
        first_taken_name(channels, added, (n - 1) as nat);
    }
}

/// The name that a plugin is refused over is the first that is taken: no channel of the plugin
/// before it has the name of one that was there.
pub proof fn the_first_taken_name_is_told(
    before: Channels,
    added: Seq<(Seq<char>, Option<Json>)>,
    built: Result<VmInstanceBuilder, VmError>,
    j: int,
) -> (i: int)
    requires
        added_all(before, added, built),
        built is Err,
    ensures
        0 <= i < added.len(),
        built->Err_0->Event_0->KindMismatch_name@ == added[i].0,
        0 <= j < i ==> !before.typed.contains_key(added[j].0) && !before.dynamic.contains_key(
            added[j].0,
        ),
{
    first_taken_name(before, added, added.len());
    let i = with_typed(before, added, added.len()).1->Some_0;
    free_so_far(before, added, i as nat, j);
    i
}

proof fn free_so_far(channels: Channels, added: Seq<(Seq<char>, Option<Json>)>, n: nat, j: int)
    requires
        n <= added.len(),
        with_typed(channels, added, n).1 is None,
    ensures
        0 <= j < n ==> !channels.taken(added[j].0),
        forall|k: Seq<char>| #[trigger]
            channels.typed.contains_key(k) ==> with_typed(channels, added, n).0.typed.contains_key(
                k,
            ),
        with_typed(channels, added, n).0.dynamic == channels.dynamic,
    decreases n,
{
    if n > 0 {
        free_so_far(channels, added, (n - 1) as nat, j);
    }
}

} // verus!
