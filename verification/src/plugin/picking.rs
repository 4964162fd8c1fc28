//! Picking: clicks on entities and the pointer moving over them, told to scripts.
use vstd::prelude::*;
use vstd::string::*;

use crate::error::VmError;
use crate::event::Channels;
use crate::plugin;
use crate::plugin::{TypedChannel, VmPlugin};
use crate::value::Json;
use crate::vm::instance::VmInstanceBuilder;

verus! {

/// The channel of [`PickClickMessage`].
pub const PICK_CLICK: &'static str = "PickClick";

/// The channel of [`PickOverMessage`].
pub const PICK_OVER: &'static str = "PickOver";

/// The channel of [`PickOutMessage`].
pub const PICK_OUT: &'static str = "PickOut";

/// An entity was clicked.
#[derive(Debug, Clone, PartialEq, Eq)]
pub struct PickClickMessage {
    /// The bits of the entity.
    pub entity: u64,
    /// The button: `Primary`, `Secondary` or `Middle`.
    pub button: String,
}

/// The pointer moved over an entity.
#[derive(Debug, Clone, Copy, PartialEq, Eq, Structural)]
pub struct PickOverMessage {
    /// The bits of the entity.
    pub entity: u64,
}

/// The pointer left an entity.
#[derive(Debug, Clone, Copy, PartialEq, Eq, Structural)]
pub struct PickOutMessage {
    /// The bits of the entity.
    pub entity: u64,
}

/// Adds the channels of picking.
#[derive(Debug, Clone, Copy)]
pub struct PickingPlugin;

/// The channels of picking.
pub open spec fn picking_channels() -> Seq<(Seq<char>, Option<Json>)> {
    seq![(PICK_CLICK@, None), (PICK_OVER@, None), (PICK_OUT@, None)]
}

impl VmPlugin for PickingPlugin {
    fn build_vm(&self, builder: VmInstanceBuilder) -> (built: Result<VmInstanceBuilder, VmError>)
        ensures
            plugin::added_all(builder.events@, picking_channels(), built),
    {
        let mut channels: Vec<TypedChannel> = Vec::new();
        channels.push(TypedChannel { name: PICK_CLICK, default: None });
        channels.push(TypedChannel { name: PICK_OVER, default: None });
        channels.push(TypedChannel { name: PICK_OUT, default: None });
        assert(plugin::channel_views(channels@) =~= picking_channels());
        plugin::add_channels(builder, &channels)
    }
}

/// A button of a pointer.
#[derive(Debug, Clone, Copy, PartialEq, Eq, Structural)]
pub enum PointerButton {
    Primary,
    Secondary,
    Middle,
}

impl PointerButton {
    /// The name of a button in a [`PickClickMessage`].
    pub open spec fn spec_name(self) -> Seq<char> {
        match self {
            PointerButton::Primary => "Primary"@,
            PointerButton::Secondary => "Secondary"@,
            PointerButton::Middle => "Middle"@,
        }
    }
}

/// The name of a button in a [`PickClickMessage`].
pub fn pointer_button_name(button: PointerButton) -> (name: &'static str)
    ensures
        name@ == button.spec_name(),
{
    match button {
        PointerButton::Primary => "Primary",
        PointerButton::Secondary => "Secondary",
        PointerButton::Middle => "Middle",
    }
}

/// Whether an entity takes picking events for itself. It does if it was made pickable and is not
/// to be ignored: `hoverable` says so, and is missing where nothing was said. Otherwise events go
/// on to what stands above it.
pub fn is_dispatch_target(hoverable: Option<bool>) -> (yes: bool)
    ensures
        yes == (hoverable == Some(true)),
{
    match hoverable {
        Some(h) => h,
        None => false,
    }
}

/// What scripts are told of a click on an entity, if anything.
pub fn on_pick_click(entity: u64, hoverable: Option<bool>, button: PointerButton) -> (message:
    Option<PickClickMessage>)
    ensures
        match message {
            Some(m) => hoverable == Some(true) && m.entity == entity && m.button@
                == button.spec_name(),
            None => hoverable != Some(true),
        },
{
    if !is_dispatch_target(hoverable) {
        return None;
    }
    Some(PickClickMessage { entity, button: pointer_button_name(button).to_owned() })
}

/// What scripts are told when the pointer moves over an entity, if anything.
pub fn on_pick_over(entity: u64, hoverable: Option<bool>) -> (message: Option<PickOverMessage>)
    ensures
        message == (if hoverable == Some(true) {
            Some(PickOverMessage { entity })
        } else {
            None
        }),
{
    if !is_dispatch_target(hoverable) {
        return None;
    }
    Some(PickOverMessage { entity })
}

/// What scripts are told when the pointer leaves an entity, if anything.
pub fn on_pick_out(entity: u64, hoverable: Option<bool>) -> (message: Option<PickOutMessage>)
    ensures
        message == (if hoverable == Some(true) {
            Some(PickOutMessage { entity })
        } else {
            None
        }),
{
    if !is_dispatch_target(hoverable) {
        return None;
    }
    Some(PickOutMessage { entity })
}

/// A machine with this plugin is told of clicks, and of the pointer coming and going, on these
/// channels and no others, none of which has a default.
pub proof fn picking_is_told_on_three_channels(
    before: Channels,
    built: Result<VmInstanceBuilder, VmError>,
    name: Seq<char>,
)
    requires
        plugin::added_all(before, picking_channels(), built),
        built is Ok,
    ensures
        ({
            let now = built->Ok_0.events@.typed;
            &&& now.contains_key("PickClick"@) && now["PickClick"@] is None
            &&& now.contains_key("PickOver"@) && now["PickOver"@] is None
            &&& now.contains_key("PickOut"@) && now["PickOut"@] is None
            &&& now.contains_key(name) && name != "PickClick"@ && name != "PickOver"@ && name
                != "PickOut"@ ==> before.typed.contains_key(name)
        }),
{
    let added = picking_channels();
    plugin::plugins_add_their_channels(before, added, built, 0, name);
    plugin::plugins_add_their_channels(before, added, built, 1, name);
    plugin::plugins_add_their_channels(before, added, built, 2, name);
    assert(added.len() == 3);
    assert(added[0].0 == "PickClick"@);
    assert(added[1].0 == "PickOver"@);
    assert(added[2].0 == "PickOut"@);
}

/// Each button is told by its own name.
pub proof fn buttons_are_told_by_name(a: PointerButton, b: PointerButton)
    ensures
        PointerButton::Primary.spec_name() == "Primary"@,
        PointerButton::Secondary.spec_name() == "Secondary"@,
        PointerButton::Middle.spec_name() == "Middle"@,
        a.spec_name() == b.spec_name() ==> a == b,
{
    reveal_strlit("Primary");
    reveal_strlit("Secondary");
    reveal_strlit("Middle");
    assert("Primary"@[0] == 'P' && "Secondary"@[0] == 'S' && "Middle"@[0] == 'M');
}

/// Scripts are told of a pick exactly if the entity was made pickable and is not to be ignored, and
/// then of that entity and that button.
pub proof fn only_pickable_entities_are_told_of(
    entity: u64,
    hoverable: Option<bool>,
    button: PointerButton,
    click: Option<PickClickMessage>,
    over: Option<PickOverMessage>,
    out: Option<PickOutMessage>,
)
    requires
        call_ensures(on_pick_click, (entity, hoverable, button), click),
        call_ensures(on_pick_over, (entity, hoverable), over),
        call_ensures(on_pick_out, (entity, hoverable), out),
    ensures
        click is Some <==> hoverable == Some(true),
        over is Some <==> hoverable == Some(true),
        out is Some <==> hoverable == Some(true),
        click is Some ==> click->Some_0.entity == entity && click->Some_0.button@ == (match button {
            PointerButton::Primary => "Primary"@,
            PointerButton::Secondary => "Secondary"@,
            PointerButton::Middle => "Middle"@,
        }),
        over is Some ==> over->Some_0.entity == entity,
        out is Some ==> out->Some_0.entity == entity,
{
}

} // verus!
