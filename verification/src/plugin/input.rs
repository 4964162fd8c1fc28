//! Mouse and keyboard events, which the engine produces and scripts read.
use vstd::prelude::*;

use crate::error::VmError;
use crate::event::Channels;
use crate::plugin;
use crate::plugin::{TypedChannel, VmPlugin};
use crate::value::Json;
use crate::vm::instance::VmInstanceBuilder;

verus! {

/// The channel of mouse buttons.
pub const MOUSE_BUTTON: &'static str = "MouseButton";

/// The channel of raw mouse movement. Not every platform has it.
pub const MOUSE_MOTION: &'static str = "MouseMotion";

/// The channel of the mouse wheel.
pub const MOUSE_WHEEL: &'static str = "MouseWheel";

/// The channel of cursor positions in windows.
pub const CURSOR_MOVED: &'static str = "CursorMoved";

/// The channel of keys.
pub const KEYBOARD_INPUT: &'static str = "KeyboardInput";

/// The channel that tells of lost keyboard focus.
pub const KEYBOARD_FOCUS_LOST: &'static str = "KeyboardFocusLost";

/// Adds the channels of mouse and keyboard events.
#[derive(Debug, Clone, Copy)]
pub struct InputPlugin;

/// The channels of mouse and keyboard events.
pub open spec fn input_channels() -> Seq<(Seq<char>, Option<Json>)> {
    seq![
        (MOUSE_BUTTON@, None),
        (MOUSE_MOTION@, None),
        (MOUSE_WHEEL@, None),
        (CURSOR_MOVED@, None),
        (KEYBOARD_INPUT@, None),
        (KEYBOARD_FOCUS_LOST@, None),
    ]
}

impl VmPlugin for InputPlugin {
    fn build_vm(&self, builder: VmInstanceBuilder) -> (built: Result<VmInstanceBuilder, VmError>)
        ensures
            plugin::added_all(builder.events@, input_channels(), built),
    {
        let mut channels: Vec<TypedChannel> = Vec::new();
        channels.push(TypedChannel { name: MOUSE_BUTTON, default: None });
        channels.push(TypedChannel { name: MOUSE_MOTION, default: None });
        channels.push(TypedChannel { name: MOUSE_WHEEL, default: None });
        channels.push(TypedChannel { name: CURSOR_MOVED, default: None });
        channels.push(TypedChannel { name: KEYBOARD_INPUT, default: None });
        channels.push(TypedChannel { name: KEYBOARD_FOCUS_LOST, default: None });
        assert(plugin::channel_views(channels@) =~= input_channels());
        plugin::add_channels(builder, &channels)
    }
}

/// A machine with this plugin can read mouse buttons, mouse motion, the mouse wheel, the position of
/// the cursor, keys and the loss of focus, on these channels and no others, none of which has a
/// default.
pub proof fn input_is_read_on_six_channels(
    before: Channels,
    built: Result<VmInstanceBuilder, VmError>,
    name: Seq<char>,
)
    requires
        plugin::added_all(before, input_channels(), built),
        built is Ok,
    ensures
        ({
            let now = built->Ok_0.events@.typed;
            &&& now.contains_key("MouseButton"@) && now["MouseButton"@] is None
            &&& now.contains_key("MouseMotion"@) && now["MouseMotion"@] is None
            &&& now.contains_key("MouseWheel"@) && now["MouseWheel"@] is None
            &&& now.contains_key("CursorMoved"@) && now["CursorMoved"@] is None
            &&& now.contains_key("KeyboardInput"@) && now["KeyboardInput"@] is None
            &&& now.contains_key("KeyboardFocusLost"@) && now["KeyboardFocusLost"@] is None
            &&& now.contains_key(name) && name != "MouseButton"@ && name != "MouseMotion"@ && name
                != "MouseWheel"@ && name != "CursorMoved"@ && name != "KeyboardInput"@ && name
                != "KeyboardFocusLost"@ ==> before.typed.contains_key(name)
        }),
{
    let added = input_channels();
    plugin::plugins_add_their_channels(before, added, built, 0, name);
    plugin::plugins_add_their_channels(before, added, built, 1, name);
    plugin::plugins_add_their_channels(before, added, built, 2, name);
    plugin::plugins_add_their_channels(before, added, built, 3, name);
    plugin::plugins_add_their_channels(before, added, built, 4, name);
    plugin::plugins_add_their_channels(before, added, built, 5, name);
    assert(added.len() == 6);
    assert(added[0].0 == "MouseButton"@);
    assert(added[1].0 == "MouseMotion"@);
    assert(added[2].0 == "MouseWheel"@);
    assert(added[3].0 == "CursorMoved"@);
    assert(added[4].0 == "KeyboardInput"@);
    assert(added[5].0 == "KeyboardFocusLost"@);
}

} // verus!
