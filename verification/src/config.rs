//! World configuration: which entities a world holds, which components they carry, and which
//! systems run each tick.
//!
//! A configuration file is written in one of several text formats, told apart by file extension.
use vstd::prelude::*;
use vstd::string::*;

use crate::dict::Dict;
use crate::error::VmError;
use crate::paths;
use crate::text;
use crate::value::{Json, Value};

verus! {

/// The description of a world, or of a module that a world refers to.
///
/// The file stem of a module is its name. Components and events that a module declares are known
/// as `module::short`; those of the top-level world are known by their short name.
pub struct WorldConfig {
    /// Dynamic components declared here.
    pub components: Vec<ComponentDecl>,
    /// Dynamic events declared here.
    pub events: Vec<EventDecl>,
    /// Entities that exist from the start.
    pub entities: Vec<EntityConfig>,
    /// Systems, in the order in which they run unless something else is asked for.
    pub systems: Vec<SystemConfig>,
    /// Seed of the random generator. Only that of the top-level world counts.
    pub seed: Option<u64>,
    /// Module files, relative to the directory of this file; `.ron` may be left out.
    pub modules: Vec<String>,
    /// Names of the modules that have to be loaded before this one.
    pub dependencies: Vec<String>,
}

/// A dynamic event: its name and the fields an emitted event falls back to.
pub struct EventDecl {
    pub name: String,
    pub default: Value,
}

/// A dynamic component: its name and the value a new one starts from.
pub struct ComponentDecl {
    pub name: String,
    pub default: Value,
}

/// A system: where its behaviour comes from and when it runs.
///
/// A plugin's name is the name of the set of all its systems.
pub enum SystemConfig {
    /// A script in a file.
    Script {
        /// The file, relative to the directory of the configuration file.
        path: String,
        /// Systems or sets that this one runs before.
        before: Vec<String>,
        /// Systems or sets that this one runs after.
        after: Vec<String>,
        /// Sets that this one joins besides that of its plugin.
        in_set: Vec<String>,
        /// Conditions that all have to hold for the system to run in a tick.
        run_if: Vec<String>,
    },
}

/// An entity: the components it carries, by name, and their initial values.
pub struct EntityConfig {
    pub components: Dict<Value>,
}

/// What a declaration that gives no default falls back to: an empty object.
pub fn default_or_empty(default: Option<Value>) -> (value: Value)
    ensures
        value@ == (match default {
            Some(v) => v@,
            None => Json::Object(Map::empty()),
        }),
{
    match default {
        Some(v) => v,
        None => Value::empty_object(),
    }
}

/// A text format of configuration files.
#[derive(Debug, Clone, Copy, PartialEq, Eq, Structural)]
pub enum ConfigFormat {
    Json,
    Ron,
}

impl ConfigFormat {
    /// The format that an extension, in any case, stands for.
    pub open spec fn of_extension(ext: Seq<char>) -> Option<ConfigFormat> {
        if text::ascii_lower(ext) == seq!['j', 's', 'o', 'n'] {
            Some(ConfigFormat::Json)
        } else if text::ascii_lower(ext) == seq!['r', 'o', 'n'] {
            Some(ConfigFormat::Ron)
        } else {
            None
        }
    }

    /// The format that a file extension stands for, without its dot and in any case.
    #[must_use]
    pub fn from_extension(ext: &str) -> (format: Option<Self>)
        ensures
            format == ConfigFormat::of_extension(ext@),
    {
        proof {
            reveal_strlit("json");
            reveal_strlit("ron");
            assert("json"@ =~= seq!['j', 's', 'o', 'n']);
            assert("ron"@ =~= seq!['r', 'o', 'n']);
        }
        if text::lower_is(ext, "json") {
            Some(ConfigFormat::Json)
        } else if text::lower_is(ext, "ron") {
            Some(ConfigFormat::Ron)
        } else {
            None
        }
    }
}

impl WorldConfig {
    /// The format of a configuration file, by its extension.
    pub fn format_of(path: &str) -> (format: Result<ConfigFormat, VmError>)
        ensures
            match format {
                Ok(f) => paths::extension_of(path@) is Some && ConfigFormat::of_extension(
                    paths::extension_of(path@)->Some_0,
                ) == Some(f),
                Err(e) => e is Parse && match paths::extension_of(path@) {
                    None => e->Parse_0@ == "config file `"@ + path@
                        + "` has no extension; cannot infer format"@,
                    Some(ext) => ConfigFormat::of_extension(ext) is None && e->Parse_0@
                        == "unsupported config extension `"@ + ext
                        + "`; enable the matching cargo feature"@,
                },
            },
    {
        match paths::extension(path) {
            None => {
                let mut reason = "config file `".to_owned();
                reason.append(path);
                reason.append("` has no extension; cannot infer format");
                Err(VmError::Parse(reason))
            },
            Some(ext) => match ConfigFormat::from_extension(ext.as_str()) {
                Some(f) => Ok(f),
                None => {
                    let mut reason = "unsupported config extension `".to_owned();
                    reason.append(ext.as_str());
                    reason.append("`; enable the matching cargo feature");
                    Err(VmError::Parse(reason))
                },
            },
        }
    }
}

/// The extensions `json` and `ron` tell the two formats, in whatever case they are written, and
/// no other extension tells one.
pub proof fn extensions_tell_formats_in_any_case(ext: Seq<char>)
    ensures
        ConfigFormat::of_extension("json"@) == Some(ConfigFormat::Json),
        ConfigFormat::of_extension("ron"@) == Some(ConfigFormat::Ron),
        ConfigFormat::of_extension(text::ascii_lower(ext)) == ConfigFormat::of_extension(ext),
        text::ascii_lower(ext) != "json"@ && text::ascii_lower(ext) != "ron"@
            ==> ConfigFormat::of_extension(ext) is None,
{
    reveal_strlit("json");
    reveal_strlit("ron");
    assert("json"@ =~= seq!['j', 's', 'o', 'n']);
    assert("ron"@ =~= seq!['r', 'o', 'n']);
    assert(text::ascii_lower("json"@) =~= "json"@);
    assert(text::ascii_lower("ron"@) =~= "ron"@);
    if ext.len() > 0 {
        text::capitals_become_small(ext, 0);
    } else {
        assert(text::ascii_lower(text::ascii_lower(ext)) =~= text::ascii_lower(ext));
    }
    assert("json"@.len() == 4 && "ron"@.len() == 3);
}

/// A default that is given stands; where none is given, it is an object without fields.
pub proof fn missing_defaults_are_empty(
    given: Value,
    kept: Value,
    empty: Value,
    key: Seq<char>,
)
    requires
        call_ensures(default_or_empty, (Some(given),), kept),
        call_ensures(default_or_empty, (None::<Value>,), empty),
    ensures
        kept@ == given@,
        empty@ is Object,
        !empty@->Object_0.contains_key(key),
{
}

} // verus!
