//! Control of the cursor, which scripts ask for by events.
use vstd::prelude::*;
use vstd::string::*;

use crate::dict::Dict;
use crate::error::VmError;
use crate::event::Channels;
use crate::plugin;
use crate::plugin::{TypedChannel, VmPlugin};
use crate::value;
use crate::value::{Json, Value};
use crate::vm::instance::VmInstanceBuilder;

verus! {

/// The channel of [`CursorGrabRequest`].
pub const CURSOR_GRAB: &'static str = "CursorGrab";

/// The channel of [`CursorReleaseRequest`].
pub const CURSOR_RELEASE: &'static str = "CursorRelease";

/// Asks the host to lock and hide the cursor.
#[derive(Debug, Clone, Copy, PartialEq, Eq, Structural)]
pub struct CursorGrabRequest {
    /// Says nothing. A request with a field can be written as an empty map, one without cannot.
    pub marker: bool,
}

/// Asks the host to free and show the cursor.
#[derive(Debug, Clone, Copy, PartialEq, Eq, Structural)]
pub struct CursorReleaseRequest {
    /// As in [`CursorGrabRequest`].
    pub marker: bool,
}

impl Default for CursorGrabRequest {
    fn default() -> (request: Self)
        ensures
            !request.marker,
    {
        CursorGrabRequest { marker: false }
    }
}

impl Default for CursorReleaseRequest {
    fn default() -> (request: Self)
        ensures
            !request.marker,
    {
        CursorReleaseRequest { marker: false }
    }
}

/// Adds the channels by which scripts control the cursor.
#[derive(Debug, Clone, Copy)]
pub struct CursorPlugin;

/// The tree form of a request with this marker.
pub open spec fn request_tree(marker: bool) -> Json {
    Json::Object(Map::<Seq<char>, Json>::empty().insert("_marker"@, Json::Bool(marker)))
}

/// The tree form of a request with this marker.
pub fn request_value(marker: bool) -> (tree: Value)
    ensures
        tree@ == request_tree(marker),
{
    let mut fields: Dict<Value> = Dict::new();
    fields.insert("_marker".to_owned(), Value::Bool(marker));
    let tree = Value::Object(fields);
    assert(value::dict_view(fields) =~= Map::<Seq<char>, Json>::empty().insert(
        "_marker"@,
        Json::Bool(marker),
    ));
    tree
}

/// The channels by which scripts control the cursor.
pub open spec fn cursor_channels() -> Seq<(Seq<char>, Option<Json>)> {
    seq![
        (CURSOR_GRAB@, Some(request_tree(false))),
        (CURSOR_RELEASE@, Some(request_tree(false))),
    ]
}

impl VmPlugin for CursorPlugin {
    fn build_vm(&self, builder: VmInstanceBuilder) -> (built: Result<VmInstanceBuilder, VmError>)
        ensures
            plugin::added_all(builder.events@, cursor_channels(), built),
    {
        let mut channels: Vec<TypedChannel> = Vec::new();
        let grab = CursorGrabRequest::default();
        let release = CursorReleaseRequest::default();
        channels.push(
            TypedChannel { name: CURSOR_GRAB, default: Some(request_value(grab.marker)) },
        );
        channels.push(
            TypedChannel { name: CURSOR_RELEASE, default: Some(request_value(release.marker)) },
        );
        assert(plugin::channel_views(channels@) =~= cursor_channels());
        plugin::add_channels(builder, &channels)
    }
}

/// What the cursor is to become.
#[derive(Debug, Clone, Copy, PartialEq, Eq, Structural)]
pub enum CursorState {
    /// Locked to the window, and hidden.
    Grabbed,
    /// Free, and visible.
    Released,
}

/// What the cursor is to become, given whether a release and whether a grab was asked for since
/// the last time. A release wins: it is better to show the cursor than to trap the user. Nothing
/// changes if neither was asked for.
pub fn apply_cursor_state(release: bool, grab: bool) -> (state: Option<CursorState>)
    ensures
        state == (if release {
            Some(CursorState::Released)
        } else if grab {
            Some(CursorState::Grabbed)
        } else {
            None
        }),
{
    if release {
        Some(CursorState::Released)
    } else if grab {
        Some(CursorState::Grabbed)
    } else {
        None
    }
}

/// A machine with this plugin can be asked to grab and to release the cursor, on these channels and
/// by an empty payload: the marker of a request is off unless it is given.
pub proof fn the_cursor_is_controlled_on_two_channels(
    before: Channels,
    built: Result<VmInstanceBuilder, VmError>,
    name: Seq<char>,
    marker: bool,
)
    requires
        plugin::added_all(before, cursor_channels(), built),
        built is Ok,
    ensures
        ({
            let now = built->Ok_0.events@;
            &&& now.typed.contains_key("CursorGrab"@) && now.typed["CursorGrab"@] == Some(
                request_tree(false),
            )
            &&& now.typed.contains_key("CursorRelease"@) && now.typed["CursorRelease"@] == Some(
                request_tree(false),
            )
            &&& now.typed.contains_key(name) && name != "CursorGrab"@ && name != "CursorRelease"@
                ==> before.typed.contains_key(name)
        }),
        request_tree(marker) is Object,
        request_tree(marker)->Object_0.dom() == set!["_marker"@],
        request_tree(marker)->Object_0["_marker"@] == Json::Bool(marker),
{
    let added = cursor_channels();
    plugin::plugins_add_their_channels(before, added, built, 0, name);
    plugin::plugins_add_their_channels(before, added, built, 1, name);
    assert(added[0].0 == "CursorGrab"@);
    assert(added[1].0 == "CursorRelease"@);
    assert(request_tree(marker)->Object_0.dom() =~= set!["_marker"@]);
}

/// A release is obeyed whatever else was asked for, a grab only without one, and without either
/// the cursor stays as it is.
pub proof fn a_release_wins(release: bool, grab: bool, state: Option<CursorState>)
    requires
        call_ensures(apply_cursor_state, (release, grab), state),
    ensures
        release ==> state == Some(CursorState::Released),
        grab && !release ==> state == Some(CursorState::Grabbed),
        !grab && !release ==> state is None,
{
}

} // verus!
