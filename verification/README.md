# bevy-vm

Virtual machines for an entity-component world. A configuration describes entities, components,
events and scripts; a virtual machine runs the scripts, tick by tick, on a world that it shares
with other machines. Every entity that a machine makes bears its mark, and machines do not see each
other's entities.

- `src/` is the core, verified with Verus: value trees and dotted paths, component and event
  registries, the loading order of plugins and the running order of scripts, the walk over required
  components, ticks and clocks, the functions that scripts call, folding of literal arguments,
  caches of resources and configurations, and the tables of mirrored entities.
- `app/` is the host around it: files, the script engine, reflection, the storage of components,
  and the bridge to a Bevy application.
- `tests/` runs the core on concrete values, with the real entity world, parsers and random
  generator.

The core calls out in four places: the entity world (`src/world_access.rs`), the parsers of JSON and
RON (`src/document.rs`), the random generator (`src/random.rs`) and the making of a string from a
character (`src/text.rs`). What it relies on there is stated in the contracts of a few small
functions; everything else is proved. Floats are held by their bit patterns.

Where the core lets the host do something, as when a system runs or a file is read, it takes the
state of the host by value and hands it back. So a contract can say what was done to the host, in
which order, and that nothing else was.

What holds of the library as a whole is stated in public proof functions next to the functions they
speak of, such as `set_then_get` for paths, `dependencies_are_loaded_first` for plugins or
`queries_stay_within_the_machine` for queries.
