//! Errors raised while a world is built or run.
use vstd::prelude::*;
use vstd::string::*;

use crate::component::typed::TypedComponentError;
use crate::component::RegistryError;
use crate::event::EventError;
use crate::text;
use crate::world_access::WorldAccessError;

verus! {

/// Why a world could not be built or run.
#[derive(Debug, Clone, PartialEq, Eq)]
pub enum VmError {
    /// A configuration or script file could not be read.
    Io { path: String, reason: String },
    /// A configuration text could not be parsed.
    Parse(String),
    /// A component name is not registered.
    UnknownComponent(String),
    /// A dynamic component could not be registered.
    Registry(RegistryError),
    /// A typed component could not be built from what an entity overrides.
    InitTypedComponent { component: String, source: TypedComponentError },
    /// What a typed component requires could not be added.
    InitTypedRequired { component: String, source: WorldAccessError },
    /// A field of a dynamic component could not be written.
    InitDynamicField { component: String, field: String, source: WorldAccessError },
    /// The default of a dynamic component could not be inserted.
    InsertDynamicDefault { component: String, source: WorldAccessError },
    /// An event channel could not be registered or used.
    Event(EventError),
    /// A script could not be compiled.
    ScriptCompile(String),
    /// A script failed while it ran.
    ScriptRuntime(String),
    /// Modules depend on each other in a circle.
    ModuleCycle { chain: String },
    /// A module depends on a name that no loaded module has.
    ModuleMissingDependency { module: String, missing: String },
    /// Two modules declare the same fully qualified name.
    ModuleNameCollision { name: String, first: String, second: String },
    /// The `before` and `after` of systems form a circle.
    SystemOrderCycle { chain: String },
    /// A `before` or `after` names no set and no system.
    UnknownSystemRef { system: String, missing: String, kind: String },
}

impl VmError {
    /// The message that describes the error.
    pub open spec fn text(self) -> Seq<char> {
        match self {
            VmError::Io { path, reason } => "failed to read file `"@ + path@ + "`: "@ + reason@,
            VmError::Parse(reason) => "failed to parse config: "@ + reason@,
            VmError::UnknownComponent(name) => "unknown component: "@ + name@,
            VmError::Registry(error) => "failed to register component: "@ + error.text(),
            VmError::InitTypedComponent { component, source } => "failed to initialize component `"@ + component@ + "`: "@ + source.text(),
            VmError::InitTypedRequired { component, source } => "failed to apply requires for component `"@ + component@ + "`: "@ + source.text(),
            VmError::InitDynamicField { component, field, source } => "failed to initialize component `"@ + component@ + "` field `"@ + field@ + "`: "@ + source.text(),
            VmError::InsertDynamicDefault { component, source } => "failed to insert default for component `"@ + component@ + "`: "@ + source.text(),
            VmError::Event(error) => "failed to register event: "@ + error.text(),
            VmError::ScriptCompile(reason) => "script compilation failed: "@ + reason@,
            VmError::ScriptRuntime(reason) => "script runtime error: "@ + reason@,
            VmError::ModuleCycle { chain } => "module dependency cycle: "@ + chain@,
            VmError::ModuleMissingDependency { module, missing } => "module `"@ + module@ + "` depends on `"@ + missing@ + "` but no such module was loaded"@,
            VmError::ModuleNameCollision { name, first, second } => "module namespace collision: `"@ + name@ + "` declared by both `"@ + first@ + "` and `"@ + second@ + "`"@,
            VmError::SystemOrderCycle { chain } => "system ordering cycle: "@ + chain@,
            VmError::UnknownSystemRef { system, missing, kind } => "system `"@ + system@ + "` references unknown set `"@ + missing@ + "` in "@ + kind@,
        }
    }

    /// The message that describes the error.
    #[must_use]
    pub fn message(&self) -> (written: String)
        ensures
            written@ == self.text(),
    {
        match self {
            VmError::Io { path, reason } => {
                let mut whole = text::in_between("failed to read file `", path.as_str(), "`: ");
                whole.append(reason.as_str());
                whole
            },
            VmError::Parse(reason) => text::followed_by("failed to parse config: ", reason.as_str()),
            VmError::UnknownComponent(name) => text::followed_by("unknown component: ", name.as_str()),
            VmError::Registry(error) => text::followed_by("failed to register component: ", error.message().as_str()),
            VmError::InitTypedComponent { component, source } => {
                let mut whole = text::in_between("failed to initialize component `", component.as_str(), "`: ");
                whole.append(source.message().as_str());
                whole
            },
            VmError::InitTypedRequired { component, source } => {
                let mut whole = text::in_between("failed to apply requires for component `", component.as_str(), "`: ");
                whole.append(source.message().as_str());
                whole
            },
            VmError::InitDynamicField { component, field, source } => {
                let mut whole = text::in_between("failed to initialize component `", component.as_str(), "` field `");
                whole.append(field.as_str());
                whole.append("`: ");
                whole.append(source.message().as_str());
                whole
            },
            VmError::InsertDynamicDefault { component, source } => {
                let mut whole = text::in_between("failed to insert default for component `", component.as_str(), "`: ");
                whole.append(source.message().as_str());
                whole
            },
            VmError::Event(error) => text::followed_by("failed to register event: ", error.message().as_str()),
            VmError::ScriptCompile(reason) => text::followed_by("script compilation failed: ", reason.as_str()),
            VmError::ScriptRuntime(reason) => text::followed_by("script runtime error: ", reason.as_str()),
            VmError::ModuleCycle { chain } => text::followed_by("module dependency cycle: ", chain.as_str()),
            VmError::ModuleMissingDependency { module, missing } => {
                let mut whole = text::in_between("module `", module.as_str(), "` depends on `");
                whole.append(missing.as_str());
                whole.append("` but no such module was loaded");
                whole
            },
            VmError::ModuleNameCollision { name, first, second } => {
                let mut whole = text::in_between("module namespace collision: `", name.as_str(), "` declared by both `");
                whole.append(first.as_str());
                whole.append("` and `");
                whole.append(second.as_str());
                whole.append("`");
                whole
            },
            VmError::SystemOrderCycle { chain } => text::followed_by("system ordering cycle: ", chain.as_str()),
            VmError::UnknownSystemRef { system, missing, kind } => {
                let mut whole = text::in_between("system `", system.as_str(), "` references unknown set `");
                whole.append(missing.as_str());
                whole.append("` in ");
                whole.append(kind.as_str());
                whole
            },
        }
    }
}

} // verus!
