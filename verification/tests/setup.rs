use bevy_vm::document::parse_json;
use bevy_vm::config::{
    default_or_empty, ComponentDecl, ConfigFormat, EntityConfig, EventDecl, SystemConfig,
    WorldConfig,
};
use bevy_vm::component::ComponentRegistry;
use bevy_vm::dict::Dict;
use bevy_vm::error::VmError;
use bevy_vm::event::{EventError, EventKind, EventRegistry};
use bevy_vm::plugin_loader::{plugin_format, LoadedPlugin, PluginGraph, PluginLoader, ROOT_PLUGIN};
use bevy_vm::value::Value;
use bevy_vm::vm::schedule::schedule_scripts;
use bevy_vm::vm::setup::{
    init_dynamic_component, inline_plugins, plan_entity, qualify_component_ref, qualify_name,
    register_plugin_components, register_plugins, resolve_root_path, root_seed, InitStep,
};
use bevy_vm::world_access::path::PathError;
use bevy_vm::world_access::WorldAccessError;

fn value(text: &str) -> Value {
    parse_json(text).expect("test value should be valid JSON")
}

fn texts(list: &[&str]) -> Vec<String> {
    list.iter().map(|s| (*s).to_owned()).collect()
}

fn config(modules: &[&str], dependencies: &[&str]) -> WorldConfig {
    WorldConfig {
        components: Vec::new(),
        events: Vec::new(),
        entities: Vec::new(),
        systems: Vec::new(),
        seed: None,
        modules: texts(modules),
        dependencies: texts(dependencies),
    }
}

fn plugin(name: &str, dependencies: &[&str]) -> LoadedPlugin {
    LoadedPlugin {
        name: name.to_owned(),
        config: config(&[], dependencies),
        base_dir: String::new(),
    }
}

fn script(path: &str, before: &[&str], after: &[&str], in_set: &[&str]) -> SystemConfig {
    SystemConfig::Script {
        path: path.to_owned(),
        before: texts(before),
        after: texts(after),
        in_set: texts(in_set),
        run_if: Vec::new(),
    }
}

fn sorted(plugins: Vec<LoadedPlugin>) -> Result<Vec<String>, VmError> {
    let mut graph = PluginGraph::new();
    for plugin in plugins {
        graph.insert(plugin);
    }
    graph.topo_sort().map(|list| list.into_iter().map(|p| p.name).collect())
}

#[test]
fn dependencies_come_first_and_the_root_last() {
    let order = sorted(vec![
        plugin(ROOT_PLUGIN, &[]),
        plugin("ui", &["combat", "core"]),
        plugin("combat", &["core"]),
        plugin("core", &[]),
    ]);
    assert_eq!(order.unwrap(), ["core", "combat", "ui", ROOT_PLUGIN]);
}

#[test]
fn circles_and_missing_dependencies_are_errors() {
    let circle = sorted(vec![plugin(ROOT_PLUGIN, &[]), plugin("a", &["b"]), plugin("b", &["a"])]);
    let Err(VmError::ModuleCycle { chain }) = circle else {
        panic!("a circle has no order")
    };
    assert_eq!(chain, "a -> b -> a");
    let missing = sorted(vec![plugin(ROOT_PLUGIN, &[]), plugin("a", &["nowhere"])]);
    assert_eq!(
        missing.unwrap_err(),
        VmError::ModuleMissingDependency { module: "a".to_owned(), missing: "nowhere".to_owned() }
    );
}

#[test]
fn graphs_find_plugins_by_name() {
    let mut graph = PluginGraph::new();
    graph.insert(plugin("a", &["b"]));
    assert!(graph.contains("a") && !graph.contains("b"));
    assert_eq!(graph.get("a").unwrap().config.dependencies, ["b"]);
    assert!(graph.get("b").is_none());
}

#[test]
fn modules_are_followed_and_merged_by_name() {
    let mut loader = PluginLoader::start(
        "w/world.ron".to_owned(),
        config(&["core", "sub/ui"], &[]),
        "w".to_owned(),
    );
    let mut asked = Vec::new();
    while let Some(request) = loader.next() {
        asked.push(request.path.clone());
        let (content, dir) = match request.path.as_str() {
            "w/core.ron" => (config(&[], &[]), "w"),
            "w/sub/ui.ron" => (config(&["../other/core", "extra"], &["core"]), "w/sub"),
            "w/sub/../other/core.ron" => (config(&["never"], &["extra"]), "w/other"),
            _ => (config(&[], &[]), "w/sub"),
        };
        loader.supply(request, content, dir.to_owned());
    }
    assert_eq!(asked, ["w/core.ron", "w/sub/ui.ron", "w/sub/../other/core.ron", "w/sub/extra.ron"]);
    let graph = loader.finish();
    assert_eq!(graph.get("core").unwrap().config.dependencies, ["extra"]);
    let order: Vec<String> = graph.topo_sort().unwrap().into_iter().map(|p| p.name).collect();
    assert_eq!(order, ["extra", "core", "ui", ROOT_PLUGIN]);
}

#[test]
fn plugin_files_have_a_known_format() {
    assert_eq!(plugin_format("a.ron"), Ok(ConfigFormat::Ron));
    assert!(matches!(plugin_format("a.toml"), Err(VmError::Parse(_))));
    assert_eq!(WorldConfig::format_of("a.json"), Ok(ConfigFormat::Json));
    assert!(WorldConfig::format_of("a").is_err());
}

fn scheduled(plugins: &Vec<LoadedPlugin>) -> Result<Vec<(usize, usize)>, VmError> {
    schedule_scripts(plugins)
        .map(|slots| slots.into_iter().map(|s| (s.plugin, s.system)).collect())
}

#[test]
fn scripts_run_as_declared_unless_asked_otherwise() {
    let mut core = plugin("core", &[]);
    core.config.systems = vec![
        script("a.rhai", &[], &[], &[]),
        script("dir/b.rhai", &[], &["ui"], &["late"]),
    ];
    let mut ui = plugin("ui", &[]);
    ui.config.systems =
        vec![script("c.rhai", &["core::b"], &[], &[]), script("d.rhai", &[], &[], &[])];
    assert_eq!(scheduled(&vec![core, ui]).unwrap(), [(0, 0), (1, 0), (1, 1), (0, 1)]);
}

#[test]
fn unknown_references_and_circles_of_scripts_are_errors() {
    let mut one = plugin("p", &[]);
    one.config.systems = vec![script("a.rhai", &["nobody"], &[], &[])];
    assert_eq!(
        scheduled(&vec![one]).unwrap_err(),
        VmError::UnknownSystemRef {
            system: "p::a".to_owned(),
            missing: "nobody".to_owned(),
            kind: "before".to_owned(),
        }
    );
    let mut two = plugin("p", &[]);
    two.config.systems = vec![
        script("a.rhai", &[], &["p::b"], &[]),
        script("b.rhai", &[], &[], &[]),
        script("c.rhai", &[], &["gone"], &[]),
    ];
    assert!(matches!(
        scheduled(&vec![two]).unwrap_err(),
        VmError::UnknownSystemRef { kind, .. } if kind == "after"
    ));
    let mut three = plugin("p", &[]);
    three.config.systems =
        vec![script("a.rhai", &[], &["p::b"], &[]), script("b.rhai", &[], &[], &[])];
    assert_eq!(
        scheduled(&vec![three]).unwrap_err(),
        VmError::SystemOrderCycle { chain: "p::a -> p::b -> p::a".to_owned() }
    );
}

#[test]
fn plugins_that_want_to_go_first_make_a_circle() {
    let mut p = plugin("p", &[]);
    p.config.systems = vec![script("a.rhai", &["q"], &[], &[])];
    let mut q = plugin("q", &[]);
    q.config.systems = vec![script("b.rhai", &["p"], &[], &[])];
    let Err(VmError::SystemOrderCycle { chain }) = scheduled(&vec![p, q]) else {
        panic!("a circle has no order")
    };
    assert!(chain == "p::a -> q::b -> p::a" || chain == "q::b -> p::a -> q::b", "{chain}");
}

#[test]
fn only_what_is_on_a_circle_is_named() {
    let circle = sorted(vec![
        plugin(ROOT_PLUGIN, &[]),
        plugin("z", &["a"]),
        plugin("a", &["b"]),
        plugin("b", &["c"]),
        plugin("c", &["b"]),
    ]);
    let Err(VmError::ModuleCycle { chain }) = circle else {
        panic!("a circle has no order")
    };
    assert!(chain == "b -> c -> b" || chain == "c -> b -> c", "{chain}");
}

#[test]
fn names_are_qualified_by_their_plugin() {
    assert_eq!(qualify_name(ROOT_PLUGIN, "Health"), "Health");
    assert_eq!(qualify_name("combat", "Health"), "combat::Health");
    assert_eq!(qualify_name("combat", "core::Health"), "core::Health");
}

fn declaring(name: &str, components: &[&str], events: &[&str]) -> LoadedPlugin {
    let mut plugin = plugin(name, &[]);
    for component in components {
        plugin.config.components.push(ComponentDecl {
            name: (*component).to_owned(),
            default: value(r#"{"value": 1}"#),
        });
    }
    for event in events {
        plugin.config.events.push(EventDecl {
            name: (*event).to_owned(),
            default: default_or_empty(None),
        });
    }
    plugin
}

#[test]
fn declarations_of_all_plugins_are_registered() {
    let mut components = ComponentRegistry::new();
    let mut events = EventRegistry::new();
    let plugins = vec![
        declaring("combat", &["Health", "Armor"], &["Hit"]),
        declaring(ROOT_PLUGIN, &["Health"], &["Hit"]),
    ];
    let ids = |name: &str, asked: usize| (asked + 1, name.len());
    assert_eq!(register_plugins(&mut components, &mut events, &plugins, 0, &ids), (3, Ok(())));
    assert_eq!(components.component_names(), ["Health", "combat::Armor", "combat::Health"]);
    assert_eq!(components.dynamic("combat::Armor").unwrap().id, "combat::Armor".len());
    assert_eq!(events.names(), ["Hit", "combat::Hit"]);
    assert!(matches!(
        events.resolve("Hit"),
        Some(EventKind::Dynamic(e)) if e.default == value("{}")
    ));

    let again = vec![declaring(ROOT_PLUGIN, &[], &["Miss", "Hit", "Never"])];
    assert_eq!(
        register_plugins(&mut components, &mut events, &again, 0, &ids),
        (0, Err(VmError::Event(EventError::KindMismatch { name: "Hit".to_owned() })))
    );
    assert!(events.resolve("Miss").is_some() && events.resolve("Never").is_none());
}

#[test]
fn typed_names_cannot_be_declared() {
    let mut components = ComponentRegistry::new();
    components.register_typed("Position", 0);
    let plugin = declaring(ROOT_PLUGIN, &["Health", "Position", "Never"], &[]);
    let host = |name: &str, asked: usize| match name {
        "Health" => (asked + 1, 5),
        _ => panic!("no id is asked for `{name}`"),
    };
    let (asked, refused) = register_plugin_components(&mut components, &plugin, 0, &host);
    assert_eq!(asked, 1);
    assert_eq!(
        refused.unwrap_err().message(),
        "failed to register component: component name `Position` is already registered as a typed component and cannot be re-declared as dynamic"
    );
    assert_eq!(components.component_names(), ["Position", "Health"]);
}

fn registry() -> ComponentRegistry {
    let mut components = ComponentRegistry::new();
    components.register_typed("Position", 0);
    components
        .register_dynamic("combat::Health", 1, value(r#"{"value": 100, "max": {"base": 100}}"#))
        .unwrap();
    components.register_dynamic("Score", 2, value("0")).unwrap();
    components
}

#[test]
fn entities_name_components_of_their_plugin() {
    let components = registry();
    let found = |plugin: &str, name: &str| qualify_component_ref(&components, plugin, name);
    assert_eq!(found("combat", "Health"), Ok("combat::Health".to_owned()));
    assert_eq!(found("ui", "Position"), Ok("Position".to_owned()));
    assert_eq!(found("ui", "no::Thing"), Ok("no::Thing".to_owned()));
    assert_eq!(found("ui", "Health"), Err(VmError::UnknownComponent("Health".to_owned())));
}

fn entity(parts: &[(&str, &str)]) -> EntityConfig {
    let mut components = Dict::new();
    for (name, text) in parts {
        components.insert((*name).to_owned(), value(text));
    }
    EntityConfig { components }
}

#[test]
fn entities_get_their_components_in_order() {
    let components = registry();
    let config = entity(&[
        ("Score", "7"),
        ("Position", r#"{"x": 1}"#),
        ("Health", r#"{"value": 30, "max": {"bonus": 5}}"#),
    ]);
    let plan = plan_entity(&components, "combat", &config);
    assert_eq!(plan.failure, None);
    assert_eq!(plan.steps.len(), 3);
    let InitStep::Dynamic { name, id: 1, value: health } = &plan.steps[0] else {
        panic!("`Health` comes first")
    };
    assert_eq!(name, "combat::Health");
    assert_eq!(health, &value(r#"{"value": 30, "max": {"base": 100, "bonus": 5}}"#));
    let InitStep::Typed { name, overrides } = &plan.steps[1] else {
        panic!("`Position` comes second")
    };
    assert_eq!((name.as_str(), overrides), ("Position", &value(r#"{"x": 1}"#)));
    assert!(matches!(&plan.steps[2], InitStep::Dynamic { id: 2, value: v, .. } if *v == value("7")));
}

#[test]
fn entities_stop_at_the_first_failure() {
    let components = registry();
    let plan = plan_entity(&components, "ui", &entity(&[("Bogus", "1"), ("Score", "1")]));
    assert!(plan.steps.is_empty());
    assert_eq!(plan.failure, Some(VmError::UnknownComponent("Bogus".to_owned())));
    let plan = plan_entity(&components, "ui", &entity(&[("a::b", "1")]));
    assert_eq!(plan.failure, Some(VmError::UnknownComponent("a::b".to_owned())));
    let config = entity(&[("Health", r#"{"max.extra": 1, "value.deep": 2}"#), ("Score", "1")]);
    let plan = plan_entity(&components, "combat", &config);
    assert!(matches!(
        &plan.steps[..],
        [InitStep::Dynamic { value: v, .. }]
            if *v == value(r#"{"value": 100, "max": {"base": 100, "extra": 1}}"#)
    ));
    assert_eq!(
        plan.failure.unwrap().message(),
        "failed to initialize component `combat::Health` field `value.deep`: cannot descend into non-container value at segment `deep`"
    );
}

#[test]
fn starting_values_are_put_together_at_every_depth() {
    let default = || value(r#"{"a": {"b": 1, "c": [1, 2]}, "d": 4}"#);
    let start = |overrides: &str| init_dynamic_component("C", default(), &value(overrides));
    assert_eq!(
        start(r#"{"a": {"c": [9], "e": {}}, "f": null}"#),
        (value(r#"{"a": {"b": 1, "c": [9], "e": {}}, "d": 4, "f": null}"#), None)
    );
    assert_eq!(start("5"), (value("5"), None));
    let (partial, failure) = start(r#"{"a.c.7": 1, "d": 5}"#);
    assert_eq!(partial, default());
    assert_eq!(
        failure,
        Some(VmError::InitDynamicField {
            component: "C".to_owned(),
            field: "a.c.7".to_owned(),
            source: WorldAccessError::Path(PathError::AssignOutOfBounds { index: 7, len: 2 }),
        })
    );
}

#[test]
fn only_the_seed_of_the_root_counts() {
    let mut module = plugin("core", &[]);
    module.config.seed = Some(1);
    let mut root = plugin(ROOT_PLUGIN, &[]);
    assert_eq!(root_seed(&vec![plugin("core", &[])]), None);
    root.config.seed = Some(2);
    assert_eq!(root_seed(&vec![module, root]), Some(2));
}

#[test]
fn worlds_are_loaded_from_directories_and_texts() {
    assert_eq!(resolve_root_path("worlds/demo", true), "worlds/demo/world.ron");
    assert_eq!(resolve_root_path("worlds/demo.ron", false), "worlds/demo.ron");
    let plugins = inline_plugins(config(&[], &["x"]), "dir").unwrap();
    assert_eq!(plugins.len(), 1);
    assert_eq!((plugins[0].name.as_str(), plugins[0].base_dir.as_str()), (ROOT_PLUGIN, "dir"));
    assert_eq!(plugins[0].config.dependencies, ["x"]);
    assert!(matches!(inline_plugins(config(&["m"], &[]), "dir"), Err(VmError::Parse(_))));
}

#[test]
fn world_errors_have_messages() {
    let s = |t: &str| t.to_owned();
    let access = || WorldAccessError::UnknownComponent { component: s("C") };
    let cases = [
        (VmError::Io { path: s("p"), reason: s("r") }, "failed to read file `p`: r"),
        (VmError::Parse(s("r")), "failed to parse config: r"),
        (VmError::UnknownComponent(s("C")), "unknown component: C"),
        (
            VmError::InitTypedComponent {
                component: s("C"),
                source: bevy_vm::component::typed::TypedComponentError::NoReflectDefault,
            },
            "failed to initialize component `C`: component is missing ReflectDefault metadata",
        ),
        (
            VmError::InitTypedRequired { component: s("A"), source: access() },
            "failed to apply requires for component `A`: component `C` is not registered",
        ),
        (
            VmError::InsertDynamicDefault { component: s("A"), source: access() },
            "failed to insert default for component `A`: component `C` is not registered",
        ),
        (
            VmError::Event(EventError::UnknownEvent { name: s("E") }),
            "failed to register event: event `E` is not registered",
        ),
        (VmError::ScriptCompile(s("r")), "script compilation failed: r"),
        (VmError::ScriptRuntime(s("r")), "script runtime error: r"),
        (VmError::ModuleCycle { chain: s("a -> a") }, "module dependency cycle: a -> a"),
        (
            VmError::ModuleMissingDependency { module: s("m"), missing: s("x") },
            "module `m` depends on `x` but no such module was loaded",
        ),
        (
            VmError::ModuleNameCollision { name: s("n"), first: s("a"), second: s("b") },
            "module namespace collision: `n` declared by both `a` and `b`",
        ),
        (VmError::SystemOrderCycle { chain: s("c") }, "system ordering cycle: c"),
        (
            VmError::UnknownSystemRef { system: s("s"), missing: s("m"), kind: s("after") },
            "system `s` references unknown set `m` in after",
        ),
    ];
    for (error, message) in cases {
        assert_eq!(error.message(), message);
    }
}
