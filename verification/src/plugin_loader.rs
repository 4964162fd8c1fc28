//! Collecting the plugins of a world and putting them into load order.
//!
//! The file stem of a plugin is its name; the top-level world goes by [`ROOT_PLUGIN`]. Of two
//! files with one stem the first to be loaded counts: the other adds its dependencies and nothing
//! else. Plugins are loaded after their dependencies, and the top-level world last of all, so that
//! its entities can use the components of every plugin.
use vstd::prelude::*;
use vstd::string::*;

use crate::config::{ConfigFormat, WorldConfig};
use crate::error::VmError;
use crate::order;
use crate::paths;
use crate::text;

verus! {

/// The name of the top-level world among the plugins.
pub const ROOT_PLUGIN: &'static str = "<root>";

/// A plugin in memory, or the top-level world.
pub struct LoadedPlugin {
    /// The file stem, or [`ROOT_PLUGIN`].
    pub name: String,
    /// The parsed file.
    pub config: WorldConfig,
    /// The directory of the file, which script and module paths are relative to.
    pub base_dir: String,
}

/// The names of a list of plugins.
pub open spec fn names_of(plugins: Seq<LoadedPlugin>) -> Seq<Seq<char>> {
    plugins.map_values(|p: LoadedPlugin| p.name@)
}

/// The names that plugin `i` has to come after, as it lists them.
pub open spec fn listed(plugins: Seq<LoadedPlugin>, i: int) -> Seq<Seq<char>> {
    text::texts(plugins[i].config.dependencies@)
}

/// The positions other than `skip` of the first `n`.
pub open spec fn all_but(n: nat, skip: int) -> Seq<usize>
    decreases n,
{
    if n == 0 {
        Seq::empty()
    } else if n - 1 == skip {
        all_but((n - 1) as nat, skip)
    } else {
        all_but((n - 1) as nat, skip).push((n - 1) as usize)
    }
}

/// For every plugin the positions of those that come before it: the ones it lists and, for the
/// top-level world, all others.
pub open spec fn dependency_graph(plugins: Seq<LoadedPlugin>) -> Seq<Seq<usize>> {
    let names = names_of(plugins);
    Seq::new(
        plugins.len(),
        |i: int|
            listed(plugins, i).map_values(|d: Seq<char>| text::place_of(names, d) as usize) + (
            if names[i] == ROOT_PLUGIN@ {
                all_but(plugins.len(), i)
            } else {
                Seq::empty()
            }),
    )
}

/// Whether plugin `i` lists, in place `k`, a name that no plugin has.
pub open spec fn is_missing(plugins: Seq<LoadedPlugin>, i: int, k: int) -> bool {
    &&& 0 <= i < plugins.len()
    &&& 0 <= k < listed(plugins, i).len()
    &&& !names_of(plugins).contains(listed(plugins, i)[k])
}

/// Whether plugin `i` is the first to list a name that no plugin has, and `k` is the first place
/// in its list where it does.
pub open spec fn is_first_missing(plugins: Seq<LoadedPlugin>, i: int, k: int) -> bool {
    &&& is_missing(plugins, i, k)
    &&& forall|a: int, b: int| #[trigger]
        is_missing(plugins, a, b) ==> a > i || (a == i && b >= k)
}

/// The names along a trail.
pub open spec fn trail_names(plugins: Seq<LoadedPlugin>, trail: Seq<usize>) -> Seq<Seq<char>> {
    trail.map_values(|i: usize| plugins[i as int].name@)
}

/// The plugins that were loaded, in the order in which they were.
pub struct PluginGraph {
    plugins: Vec<LoadedPlugin>,
}

impl View for PluginGraph {
    type V = Seq<LoadedPlugin>;

    closed spec fn view(&self) -> Seq<LoadedPlugin> {
        self.plugins@
    }
}

impl PluginGraph {
    /// No two plugins have one name.
    #[verifier::type_invariant]
    spec fn names_differ(self) -> bool {
        names_of(self.plugins@).no_duplicates()
    }

    /// A graph without plugins.
    pub fn new() -> (graph: Self)
        ensures
            graph@ == Seq::<LoadedPlugin>::empty(),
    {
        PluginGraph { plugins: Vec::new() }
    }

    /// Where the plugin of this name stands.
    fn find(&self, name: &str) -> (found: Option<usize>)
        ensures
            match found {
                Some(i) => i < self@.len() && self@[i as int].name@ == name@ && text::place_of(
                    names_of(self@),
                    name@,
                ) == i,
                None => !names_of(self@).contains(name@),
            },
    {
        proof {
            use_type_invariant(self);
        }
        let ghost names = names_of(self@);
        let mut i: usize = 0;
        while i < self.plugins.len()
            invariant
                i <= self.plugins.len(),
                names == names_of(self@),
                names.no_duplicates(),
                forall|j: int| 0 <= j < i ==> #[trigger] names[j] != name@,
            decreases self.plugins.len() - i,
        {
            assert(names[i as int] == self.plugins@[i as int].name@);
            if text::same_text(self.plugins[i].name.as_str(), name) {
                proof {
                    let j = text::place_of(names, name@);
                    assert(names[i as int] == name@);
                }
                return Some(i);
            }
            i += 1;
        }
        None
    }

    /// Whether a plugin has this name.
    pub fn contains(&self, name: &str) -> (found: bool)
        ensures
            found == names_of(self@).contains(name@),
    {
        match self.find(name) {
            Some(i) => {
                assert(names_of(self@)[i as int] == name@);
                true
            },
            None => false,
        }
    }

    /// The plugin of this name.
    pub fn get(&self, name: &str) -> (plugin: Option<&LoadedPlugin>)
        ensures
            match plugin {
                Some(p) => names_of(self@).contains(name@) && *p == self@[text::place_of(
                    names_of(self@),
                    name@,
                )] && p.name@ == name@,
                None => !names_of(self@).contains(name@),
            },
    {
        match self.find(name) {
            Some(i) => {
                assert(names_of(self@)[i as int] == name@);
                Some(&self.plugins[i])
            },
            None => None,
        }
    }

    /// Adds a plugin at the end, or puts it in the place of the one of the same name.
    pub fn insert(&mut self, plugin: LoadedPlugin)
        ensures
            final(self)@ == (if names_of(old(self)@).contains(plugin.name@) {
                old(self)@.update(text::place_of(names_of(old(self)@), plugin.name@), plugin)
            } else {
                old(self)@.push(plugin)
            }),
    {
        proof {
            use_type_invariant(&*self);
        }
        let at = self.find(plugin.name.as_str());
        let ghost name = plugin.name@;
        let mut plugins: Vec<LoadedPlugin> = Vec::new();
        std::mem::swap(&mut self.plugins, &mut plugins);
        let ghost before = plugins@;
        match at {
            Some(i) => {
                assert(names_of(before)[i as int] == name);
                plugins.set(i, plugin);
                assert(names_of(plugins@) =~= names_of(before));
            },
            None => {
                plugins.push(plugin);
                assert(names_of(plugins@) =~= names_of(before).push(name));
                assert(names_of(plugins@).no_duplicates()) by {
                    let names = names_of(before);
                    assert forall|i: int, j: int|
                        0 <= i < j < names.len() + 1 implies names.push(name)[i] != names.push(
                        name,
                    )[j] by {
                        if j == names.len() {
                            assert(names.contains(names[i]));
                        }
                    }
                }
            },
        }
        self.plugins = plugins;
    }
}

/// The plugins at the given positions.
pub open spec fn picked(plugins: Seq<LoadedPlugin>, order: Seq<usize>) -> Seq<LoadedPlugin> {
    order.map_values(|i: usize| plugins[i as int])
}

fn pick(plugins: Vec<LoadedPlugin>, order: &Vec<usize>) -> (out: Vec<LoadedPlugin>)
    requires
        order@.no_duplicates(),
        forall|k: int| 0 <= k < order.len() ==> #[trigger] order@[k] < plugins.len(),
    ensures
        out@ == picked(plugins@, order@),
{
    let ghost all = plugins@;
    let mut slots: Vec<Option<LoadedPlugin>> = Vec::new();
    for p in it: plugins
        invariant
            it.seq() == all,
            slots.len() == it.index(),
            forall|j: int| 0 <= j < it.index() ==> #[trigger] slots@[j] == Some(all[j]),
    {
        slots.push(Some(p));
    }
    let mut out: Vec<LoadedPlugin> = Vec::new();
    let mut k: usize = 0;
    while k < order.len()
        invariant
            k <= order.len(),
            slots.len() == all.len(),
            order@.no_duplicates(),
            forall|j: int| 0 <= j < order.len() ==> #[trigger] order@[j] < all.len(),
            forall|j: int|
                0 <= j < all.len() && !order@.take(k as int).contains(j as usize)
                    ==> #[trigger] slots@[j] == Some(all[j]),
            out@ == picked(all, order@.take(k as int)),
        decreases order.len() - k,
    {
        let i: usize = order[k];
        assert(!order@.take(k as int).contains(i)) by {
            if order@.take(k as int).contains(i) {
                let j = choose|j: int| 0 <= j < k && order@.take(k as int)[j] == i;
                assert(order@[j] == order@[k as int]);
            }
        }
        let mut slot: Option<LoadedPlugin> = None;
        let ghost slots_before = slots@;
        std::mem::swap(&mut slots[i], &mut slot);
        assert(slot == Some(all[i as int]));
        match slot {
            Some(p) => {
                out.push(p);
            },
            None => {},
        }
        proof {
            let longer = order@.take(k + 1);
            assert(longer =~= order@.take(k as int).push(i));
            assert forall|j: int|
                0 <= j < all.len() && !longer.contains(j as usize) implies #[trigger] slots@[j]
                == Some(all[j]) by {
                assert(longer[k as int] == i);
                assert(j != i);
                if order@.take(k as int).contains(j as usize) {
                    let x = choose|x: int| 0 <= x < k && order@.take(k as int)[x] == j as usize;
                    assert(longer[x] == j as usize);
                }
                assert(slots_before[j] == Some(all[j]));
            }
            assert(out@ =~= picked(all, longer));
        }
        k += 1;
    }
    assert(order@.take(order@.len() as int) =~= order@);
    out
}

impl PluginGraph {
    /// The positions that the plugin at `i` has to come after, or the first name it lists that no
    /// plugin has.
    fn needs(&self, i: usize) -> (found: Result<Vec<usize>, usize>)
        requires
            i < self@.len(),
        ensures
            match found {
                Ok(list) => list@ == dependency_graph(self@)[i as int] && (forall|k: int|
                    !is_missing(self@, i as int, k)) && forall|k: int|
                    0 <= k < list.len() ==> #[trigger] list@[k] < self@.len(),
                Err(k) => is_missing(self@, i as int, k as int) && forall|j: int| #[trigger]
                    is_missing(self@, i as int, j) ==> j >= k,
            },
    {
        let ghost names = names_of(self@);
        let deps = &self.plugins[i].config.dependencies;
        let ghost wanted = listed(self@, i as int);
        let mut list: Vec<usize> = Vec::new();
        let mut k: usize = 0;
        while k < deps.len()
            invariant
                k <= deps.len(),
                i < self@.len(),
                names == names_of(self@),
                wanted == listed(self@, i as int),
                wanted == text::texts(deps@),
                list.len() == k,
                forall|j: int|
                    0 <= j < k ==> #[trigger] list@[j] == text::place_of(names, wanted[j]) && list@[j]
                        < self@.len(),
                forall|j: int| 0 <= j < k ==> names.contains(#[trigger] wanted[j]),
            decreases deps.len() - k,
        {
            assert(wanted[k as int] == deps@[k as int]@);
            match self.find(deps[k].as_str()) {
                Some(at) => {
                    assert(names[at as int] == wanted[k as int]);
                    list.push(at);
                },
                None => {
                    return Err(k);
                },
            }
            k += 1;
        }
        let ghost direct = list@;
        assert(direct =~= wanted.map_values(|d: Seq<char>| text::place_of(names, d) as usize));
        if text::same_text(self.plugins[i].name.as_str(), ROOT_PLUGIN) {
            let mut j: usize = 0;
            assert(direct + all_but(0, i as int) =~= direct);
            while j < self.plugins.len()
                invariant
                    j <= self.plugins.len(),
                    self.plugins@.len() == self@.len(),
                    list@ == direct + all_but(j as nat, i as int),
                    forall|x: int| 0 <= x < list.len() ==> #[trigger] list@[x] < self@.len(),
                decreases self.plugins.len() - j,
            {
                let ghost before = list@;
                if j != i {
                    list.push(j);
                    assert(list@ =~= direct + all_but(j as nat, i as int).push(j));
                }
                j += 1;
            }
        } else {
            assert(direct + Seq::<usize>::empty() =~= direct);
        }
        assert(names[i as int] == self@[i as int].name@);
        Ok(list)
    }

    /// The names along a trail, with arrows between them.
    fn describe_cycle(&self, trail: &Vec<usize>) -> (chain: String)
        requires
            forall|j: int| 0 <= j < trail.len() ==> #[trigger] trail@[j] < self@.len(),
        ensures
            chain@ == text::joined(trail_names(self@, trail@), " -> "@),
    {
        let mut names: Vec<String> = Vec::new();
        let mut k: usize = 0;
        while k < trail.len()
            invariant
                k <= trail.len(),
                self@ == self.plugins@,
                names.len() == k,
                forall|j: int| 0 <= j < trail.len() ==> #[trigger] trail@[j] < self@.len(),
                forall|j: int|
                    0 <= j < k ==> (#[trigger] names@[j])@ == self@[trail@[j] as int].name@,
            decreases trail.len() - k,
        {
            names.push(self.plugins[trail[k]].name.clone());
            k += 1;
        }
        assert(text::texts(names@) =~= trail_names(self@, trail@));
        text::join(&names, " -> ")
    }

    /// Puts the plugins into load order: each after those it depends on, the first loaded first
    /// where there is a choice, and the top-level world last.
    pub fn topo_sort(self) -> (sorted: Result<Vec<LoadedPlugin>, VmError>)
        ensures
            match sorted {
                Ok(out) => {
                    &&& forall|i: int, k: int| !#[trigger] is_missing(self@, i, k)
                    &&& !order::has_cycle(dependency_graph(self@))
                    &&& exists|order: Seq<usize>| #[trigger]
                        order::is_stable_order(dependency_graph(self@), order) && order.len()
                            == self@.len() && out@ == picked(self@, order)
                },
                Err(VmError::ModuleMissingDependency { module, missing }) => exists|
                    i: int,
                    k: int,
                | #[trigger]
                    is_first_missing(self@, i, k) && module@ == self@[i].name@ && missing@
                        == listed(self@, i)[k],
                Err(VmError::ModuleCycle { chain }) => {
                    &&& forall|i: int, k: int| !#[trigger] is_missing(self@, i, k)
                    &&& order::has_cycle(dependency_graph(self@))
                    &&& exists|order: Seq<usize>, circle: Seq<usize>|
                        {
                            &&& #[trigger] order::is_stable_order(
                                dependency_graph(self@),
                                order,
                            )
                            &&& #[trigger] order::is_found_cycle(
                                dependency_graph(self@),
                                order,
                                circle,
                            )
                            &&& chain@ == text::joined(trail_names(self@, circle), " -> "@)
                        }
                },
                Err(_) => false,
            },
    {
        let n: usize = self.plugins.len();
        let ghost graph = dependency_graph(self@);
        let mut before: Vec<Vec<usize>> = Vec::new();
        let mut i: usize = 0;
        while i < n
            invariant
                i <= n,
                n == self@.len(),
                self@ == self.plugins@,
                graph == dependency_graph(self@),
                before.len() == i,
                forall|j: int| 0 <= j < i ==> (#[trigger] before@[j])@ == graph[j],
                forall|a: int, k: int| a < i ==> !#[trigger] is_missing(self@, a, k),
                forall|j: int, k: int|
                    0 <= j < i && 0 <= k < before@[j].len() ==> #[trigger] before@[j]@[k] < n,
            decreases n - i,
        {
            match self.needs(i) {
                Ok(list) => {
                    before.push(list);
                },
                Err(k) => {
                    let module = self.plugins[i].name.clone();
                    let missing = self.plugins[i].config.dependencies[k].clone();
                    proof {
                        assert(listed(self@, i as int)[k as int] == missing@);
                        assert(is_first_missing(self@, i as int, k as int));
                    }
                    return Err(VmError::ModuleMissingDependency { module, missing });
                },
            }
            i += 1;
        }
        proof {
            assert(order::lists(before@) =~= graph);
            assert forall|a: int, k: int| 0 <= a < graph.len() && 0 <= k < graph[a].len() implies
                #[trigger] graph[a][k] < graph.len() by {
                assert(before@[a]@[k] < n);
            }
            assert forall|a: int, k: int| !#[trigger] is_missing(self@, a, k) by {
                if is_missing(self@, a, k) {
                    assert(a < n);
                }
            }
        }
        let order = order::stable_order(&before);
        if order.len() < n {
            let circle = order::found_cycle(&before, &order);
            let chain = self.describe_cycle(&circle);
            proof {
                assert(order::is_stable_order(graph, order@));
                assert(order::is_found_cycle(graph, order@, circle@));
            }
            return Err(VmError::ModuleCycle { chain });
        }
        assert(order::is_stable_order(graph, order@));
        Ok(pick(self.plugins, &order))
    }
}

proof fn all_but_holds(n: nat, skip: int, j: usize)
    requires
        j < n,
        j != skip,
    ensures
        all_but(n, skip).contains(j),
    decreases n,
{
    let shorter = all_but((n - 1) as nat, skip);
    if n - 1 == j {
        assert(all_but(n, skip) == shorter.push(j));
        assert(all_but(n, skip)[shorter.len() as int] == j);
    } else {
        all_but_holds((n - 1) as nat, skip, j);
        let k = choose|k: int| 0 <= k < shorter.len() && shorter[k] == j;
        assert(all_but(n, skip)[k] == j);
    }
}

/// In load order every plugin stands after the plugins whose names it lists.
pub proof fn dependencies_are_loaded_first(
    plugins: Seq<LoadedPlugin>,
    order: Seq<usize>,
    i: int,
    k: int,
)
    requires
        names_of(plugins).no_duplicates(),
        order::is_stable_order(dependency_graph(plugins), order),
        order.len() == plugins.len(),
        0 <= i < plugins.len(),
        0 <= k < listed(plugins, i).len(),
        !is_missing(plugins, i, k),
    ensures
        exists|a: int, b: int|
            0 <= a < b < order.len() && picked(plugins, order)[a].name@ == listed(plugins, i)[k]
                && picked(plugins, order)[b] == plugins[i] && #[trigger] order[a] == text::place_of(
                names_of(plugins),
                listed(plugins, i)[k],
            ) && #[trigger] order[b] == i,
{
    let names = names_of(plugins);
    let wanted = listed(plugins, i)[k];
    let d = text::place_of(names, wanted);
    let graph = dependency_graph(plugins);
    assert(names[d] == wanted);
    order::order_has_no_duplicates(graph, order);
    order::distinct_nodes_fit(order, usize::MAX as nat + 1);
    assert(graph[i][k] == d as usize);
    order::complete_order_respects_dependencies(graph, order, i, d as usize);
}

/// In load order the top-level world stands last.
pub proof fn the_root_is_loaded_last(plugins: Seq<LoadedPlugin>, order: Seq<usize>, root: int)
    requires
        order::is_stable_order(dependency_graph(plugins), order),
        order.len() == plugins.len(),
        0 <= root < plugins.len(),
        plugins[root].name@ == ROOT_PLUGIN@,
    ensures
        order.last() == root,
        picked(plugins, order).last() == plugins[root],
{
    let graph = dependency_graph(plugins);
    order::order_has_no_duplicates(graph, order);
    let last = order.last();
    if last != root {
        assert(names_of(plugins)[root] == ROOT_PLUGIN@);
        all_but_holds(plugins.len(), root, last);
        let all = all_but(plugins.len(), root);
        let k = choose|k: int| 0 <= k < all.len() && all[k] == last;
        let m = listed(plugins, root).len();
        assert(graph[root][m + k] == last);
        order::complete_order_respects_dependencies(graph, order, root, last);
        let (a, b) = choose|a: int, b: int|
            0 <= a < b < order.len() && #[trigger] order[a] == last && #[trigger] order[b] == root;
        assert(order[a] == order[order.len() - 1]);
    }
}

/// Where the file of a module lies: its path seen from `base_dir`, with `.ron` put on if it has no
/// extension.
pub open spec fn plugin_path(base_dir: Seq<char>, rel: Seq<char>) -> Seq<char> {
    paths::with_extension_if_none(paths::joined_path(base_dir, rel), "ron"@)
}

/// The name of the plugin in a file: its stem, or the whole path if it has none.
pub open spec fn plugin_name(path: Seq<char>) -> Seq<char> {
    match paths::file_stem_of(path) {
        Some(stem) => stem,
        None => path,
    }
}

/// Where the file of a module lies.
pub fn resolve_plugin_path(base_dir: &str, rel: &str) -> (path: String)
    ensures
        path@ == plugin_path(base_dir@, rel@),
{
    paths::add_extension_if_none(paths::join(base_dir, rel).as_str(), "ron")
}

/// The name of the plugin in a file.
pub fn plugin_stem(path: &str) -> (name: String)
    ensures
        name@ == plugin_name(path@),
{
    match paths::file_stem(path) {
        Some(stem) => stem,
        None => path.to_owned(),
    }
}

/// The format of a plugin file, by its extension.
pub fn plugin_format(path: &str) -> (format: Result<ConfigFormat, VmError>)
    ensures
        ({
            let found = match paths::extension_of(path@) {
                Some(ext) => ConfigFormat::of_extension(ext),
                None => None,
            };
            match format {
                Ok(f) => found == Some(f),
                Err(e) => found is None && e is Parse && e->Parse_0@
                    == "unsupported plugin file extension: `"@ + path@ + "`"@,
            }
        }),
{
    let found = match paths::extension(path) {
        Some(ext) => ConfigFormat::from_extension(ext.as_str()),
        None => None,
    };
    match found {
        Some(f) => Ok(f),
        None => {
            let mut reason = "unsupported plugin file extension: `".to_owned();
            reason.append(path);
            reason.append("`");
            Err(VmError::Parse(reason))
        },
    }
}

/// A module file that a plugin refers to.
pub struct Reference {
    /// The path as the plugin writes it.
    pub path: String,
    /// The directory that the path is relative to.
    pub base_dir: String,
}

/// A file that has to be read before loading can go on.
pub struct FileRequest {
    /// The path of the file.
    pub path: String,
    /// The name of the plugin in it.
    pub name: String,
}

/// The content of a list of references.
pub open spec fn references(list: Seq<Reference>) -> Seq<(Seq<char>, Seq<char>)> {
    list.map_values(|r: Reference| (r.path@, r.base_dir@))
}

/// Collects the plugins that a world refers to, one file at a time: it says which file to read
/// next, and takes what was read.
pub struct PluginLoader {
    graph: PluginGraph,
    /// The file of each plugin.
    files: Vec<String>,
    /// References that were not followed yet, the next one last.
    pending: Vec<Reference>,
}

/// The state of a [`PluginLoader`].
pub struct LoaderState {
    pub plugins: Seq<LoadedPlugin>,
    pub files: Seq<Seq<char>>,
    pub pending: Seq<(Seq<char>, Seq<char>)>,
}

impl View for PluginLoader {
    type V = LoaderState;

    closed spec fn view(&self) -> LoaderState {
        LoaderState {
            plugins: self.graph@,
            files: text::texts(self.files@),
            pending: references(self.pending@),
        }
    }
}

impl LoaderState {
    /// Whether the file at `path` is the one that the plugin of its name came from.
    pub open spec fn has_file(self, path: Seq<char>) -> bool {
        let names = names_of(self.plugins);
        names.contains(plugin_name(path)) && self.files[text::place_of(names, plugin_name(path))] == path
    }

    /// How many references are left when those to files already loaded are passed over.
    pub open spec fn left_to_follow(self) -> nat
        decreases self.pending.len(),
    {
        if self.pending.len() == 0 {
            0
        } else {
            let (rel, base_dir) = self.pending.last();
            if self.has_file(plugin_path(base_dir, rel)) {
                (LoaderState { pending: self.pending.drop_last(), ..self }).left_to_follow()
            } else {
                self.pending.len()
            }
        }
    }
}

/// The references of a plugin to its modules, the first one last.
pub open spec fn module_references(modules: Seq<Seq<char>>, base_dir: Seq<char>) -> Seq<
    (Seq<char>, Seq<char>),
> {
    Seq::new(modules.len(), |i: int| (modules[modules.len() - 1 - i], base_dir))
}

/// Whether `after` is `before` with further dependencies listed by the plugin at `at`, and nothing
/// else changed.
pub open spec fn only_dependencies_added(
    before: Seq<LoadedPlugin>,
    after: Seq<LoadedPlugin>,
    at: int,
    added: Seq<Seq<char>>,
) -> bool {
    &&& 0 <= at < before.len()
    &&& after == before.update(at, after[at])
    &&& after[at].name == before[at].name
    &&& after[at].base_dir == before[at].base_dir
    &&& after[at].config == (WorldConfig {
        dependencies: after[at].config.dependencies,
        ..before[at].config
    })
    &&& listed(after, at) == listed(before, at) + added
}

impl PluginGraph {
    /// Lets the plugin of this name depend on further plugins.
    fn add_dependencies(&mut self, name: &str, added: Vec<String>)
        requires
            names_of(old(self)@).contains(name@),
        ensures
            only_dependencies_added(
                old(self)@,
                final(self)@,
                text::place_of(names_of(old(self)@), name@),
                text::texts(added@),
            ),
    {
        proof {
            use_type_invariant(&*self);
        }
        let found = self.find(name);
        let mut plugins: Vec<LoadedPlugin> = Vec::new();
        std::mem::swap(&mut self.plugins, &mut plugins);
        let ghost before = plugins@;
        match found {
            Some(at) => {
                let mut added = added;
                let ghost more = added@;
                let plugin = plugins.remove(at);
                let LoadedPlugin { name, config, base_dir } = plugin;
                let WorldConfig {
                    components,
                    events,
                    entities,
                    systems,
                    seed,
                    modules,
                    dependencies,
                } = config;
                let mut dependencies = dependencies;
                dependencies.append(&mut added);
                let config = WorldConfig {
                    components,
                    events,
                    entities,
                    systems,
                    seed,
                    modules,
                    dependencies,
                };
                plugins.insert(at, LoadedPlugin { name, config, base_dir });
                proof {
                    assert(plugins@ =~= before.update(at as int, plugins@[at as int]));
                    assert(text::texts(dependencies@) =~= listed(before, at as int) + text::texts(
                        more,
                    ));
                    assert(names_of(plugins@) =~= names_of(before));
                }
            },
            None => {},
        }
        self.plugins = plugins;
    }
}

impl PluginLoader {
    /// Every plugin came from a file.
    #[verifier::type_invariant]
    spec fn files_match(self) -> bool {
        &&& self.files@.len() == self.graph@.len()
        &&& names_of(self.graph@).no_duplicates()
    }

    /// Starts from the top-level world, which was read from the file at `path`.
    pub fn start(path: String, config: WorldConfig, base_dir: String) -> (loader: Self)
        ensures
            loader@.plugins.len() == 1,
            loader@.plugins[0].name@ == ROOT_PLUGIN@,
            loader@.plugins[0].config == config,
            loader@.plugins[0].base_dir == base_dir,
            loader@.files == seq![path@],
            loader@.pending == module_references(text::texts(config.modules@), base_dir@),
    {
        let pending = reversed_references(&config.modules, base_dir.as_str(), Vec::new());
        let mut graph = PluginGraph::new();
        graph.insert(LoadedPlugin { name: ROOT_PLUGIN.to_owned(), config, base_dir });
        let mut files: Vec<String> = Vec::new();
        files.push(path);
        proof {
            assert(references(Seq::<Reference>::empty()) =~= Seq::empty());
            assert(references(pending@) =~= module_references(
                text::texts(config.modules@),
                base_dir@,
            ));
            assert(text::texts(files@) =~= seq![path@]);
        }
        PluginLoader { graph, files, pending }
    }

    /// The next file to read, or nothing when every reference was followed. A reference to a file
    /// that was loaded already is passed over.
    pub fn next(&mut self) -> (request: Option<FileRequest>)
        ensures
            final(self)@.plugins == old(self)@.plugins,
            final(self)@.files == old(self)@.files,
            ({
                let left = old(self)@.left_to_follow() as int;
                match request {
                    Some(r) => {
                        let (rel, base_dir) = old(self)@.pending[left - 1];
                        &&& 0 < left <= old(self)@.pending.len()
                        &&& r.path@ == plugin_path(base_dir, rel)
                        &&& r.name@ == plugin_name(r.path@)
                        &&& final(self)@.pending == old(self)@.pending.take(left - 1)
                    },
                    None => left == 0 && final(self)@.pending.len() == 0,
                }
            }),
    {
        proof {
            use_type_invariant(&*self);
        }
        let mut pending: Vec<Reference> = Vec::new();
        std::mem::swap(&mut self.pending, &mut pending);
        let ghost start = old(self)@;
        let ghost mut now = start;
        assert(start.pending.take(start.pending.len() as int) =~= start.pending);
        while pending.len() > 0
            invariant
                start == old(self)@,
                self.graph@ == start.plugins,
                text::texts(self.files@) == start.files,
                self.files@.len() == self.graph@.len(),
                names_of(self.graph@).no_duplicates(),
                now.plugins == start.plugins,
                now.files == start.files,
                now.pending == references(pending@),
                pending@.len() <= start.pending.len(),
                now.pending == start.pending.take(pending@.len() as int),
                now.left_to_follow() == start.left_to_follow(),
            decreases pending@.len(),
        {
            let ghost list = pending@;
            let reference = match pending.pop() {
                Some(r) => r,
                None => {
                    return None;
                },
            };
            let path = resolve_plugin_path(reference.base_dir.as_str(), reference.path.as_str());
            let name = plugin_stem(path.as_str());
            let ghost rest = LoaderState { pending: now.pending.drop_last(), ..now };
            proof {
                assert(list.last() == reference);
                assert(now.pending.last() == (reference.path@, reference.base_dir@));
                assert(references(pending@) =~= rest.pending);
                assert(rest.pending =~= start.pending.take(pending@.len() as int));
                assert(now.pending.last() == start.pending[list.len() - 1]);
            }
            let known: bool = match self.graph.find(name.as_str()) {
                Some(at) => {
                    assert(text::texts(self.files@)[at as int] == self.files@[at as int]@);
                    assert(names_of(self.graph@)[at as int] == name@);
                    text::same_text(self.files[at].as_str(), path.as_str())
                },
                None => false,
            };
            if !known {
                self.pending = pending;
                return Some(FileRequest { path, name });
            }
            proof {
                now = rest;
            }
        }
        self.pending = pending;
        None
    }

    /// Takes the content of a file that was asked for. A new plugin joins the others and its
    /// modules are followed next; of a second file for a plugin only the dependencies count.
    pub fn supply(&mut self, request: FileRequest, config: WorldConfig, base_dir: String)
        ensures
            ({
                let names = names_of(old(self)@.plugins);
                if names.contains(request.name@) {
                    &&& only_dependencies_added(
                        old(self)@.plugins,
                        final(self)@.plugins,
                        text::place_of(names, request.name@),
                        text::texts(config.dependencies@),
                    )
                    &&& final(self)@.files == old(self)@.files
                    &&& final(self)@.pending == old(self)@.pending
                } else {
                    &&& final(self)@.plugins == old(self)@.plugins.push(
                        LoadedPlugin { name: request.name, config, base_dir },
                    )
                    &&& final(self)@.files == old(self)@.files.push(request.path@)
                    &&& final(self)@.pending == old(self)@.pending + module_references(
                        text::texts(config.modules@),
                        base_dir@,
                    )
                }
            }),
    {
        proof {
            use_type_invariant(&*self);
        }
        let mut taken = PluginLoader {
            graph: PluginGraph::new(),
            files: Vec::new(),
            pending: Vec::new(),
        };
        std::mem::swap(self, &mut taken);
        let PluginLoader { graph, files, pending } = taken;
        let mut graph = graph;
        let mut files = files;
        let mut pending = pending;
        if graph.contains(request.name.as_str()) {
            let ghost before = graph@;
            graph.add_dependencies(request.name.as_str(), config.dependencies);
            assert(names_of(graph@) =~= names_of(before));
        } else {
            let ghost old_files = files@;
            let ghost old_pending = pending@;
            let ghost before = graph@;
            pending = reversed_references(&config.modules, base_dir.as_str(), pending);
            files.push(request.path);
            graph.insert(LoadedPlugin { name: request.name, config, base_dir });
            proof {
                assert(text::texts(files@) =~= text::texts(old_files).push(request.path@));
                assert(references(pending@) =~= references(old_pending) + module_references(
                    text::texts(config.modules@),
                    base_dir@,
                ));
                assert(names_of(graph@) =~= names_of(before).push(request.name@));
                assert(names_of(graph@).no_duplicates()) by {
                    let names = names_of(before);
                    assert forall|i: int, j: int|
                        0 <= i < j < names.len() + 1 implies names.push(request.name@)[i]
                        != names.push(request.name@)[j] by {
                        if j == names.len() {
                            assert(names.contains(names[i]));
                        }
                    }
                }
            }
        }
        *self = PluginLoader { graph, files, pending };
    }

    /// The plugins that were collected.
    pub fn finish(self) -> (graph: PluginGraph)
        ensures
            graph@ == self@.plugins,
    {
        self.graph
    }
}

/// Adds references to the modules, the first one last.
fn reversed_references(modules: &Vec<String>, base_dir: &str, list: Vec<Reference>) -> (longer: Vec<
    Reference,
>)
    ensures
        references(longer@) == references(list@) + module_references(
            text::texts(modules@),
            base_dir@,
        ),
{
    let ghost names = text::texts(modules@);
    let ghost added = module_references(names, base_dir@);
    let mut longer = list;
    let mut i: usize = modules.len();
    assert(added.take(0) =~= Seq::empty());
    assert(references(list@) + added.take(0) =~= references(list@));
    while i > 0
        invariant
            i <= modules.len(),
            names == text::texts(modules@),
            added == module_references(names, base_dir@),
            references(longer@) == references(list@) + added.take(modules.len() - i),
        decreases i,
    {
        i -= 1;
        let ghost before = longer@;
        let reference = Reference { path: modules[i].clone(), base_dir: base_dir.to_owned() };
        longer.push(reference);
        proof {
            assert(references(longer@) =~= references(before).push((reference.path@, reference.base_dir@)));
            assert(added.take(modules.len() - i) =~= added.take(modules.len() - i - 1).push(
                (names[i as int], base_dir@),
            ));
        }
    }
    assert(added.take(modules.len() as int) =~= added);
    longer
}

/// Loading takes every plugin exactly once: as many as there are, each of them somewhere.
pub proof fn every_plugin_is_loaded_once(plugins: Seq<LoadedPlugin>, order: Seq<usize>, i: int)
    requires
        names_of(plugins).no_duplicates(),
        order::is_stable_order(dependency_graph(plugins), order),
        order.len() == plugins.len(),
        0 <= i < plugins.len(),
    ensures
        picked(plugins, order).len() == plugins.len(),
        picked(plugins, order).contains(plugins[i]),
        names_of(picked(plugins, order)).no_duplicates(),
{
    let graph = dependency_graph(plugins);
    let out = picked(plugins, order);
    order::order_has_no_duplicates(graph, order);
    order::complete_order_holds_every_node(graph, order, i);
    let at = choose|at: int| 0 <= at < order.len() && #[trigger] order[at] == i;
    assert(out[at] == plugins[i]);
    let names = names_of(out);
    assert forall|x: int, y: int| 0 <= x < y < names.len() implies names[x] != names[y] by {
        assert(order::ready(graph, order.take(x), order[x] as int));
        assert(order::ready(graph, order.take(y), order[y] as int));
        assert(names[x] == names_of(plugins)[order[x] as int]);
        assert(names[y] == names_of(plugins)[order[y] as int]);
    }
}

/// A plugin is loaded behind every plugin that it names as a dependency.
pub proof fn named_plugins_are_loaded_before(
    plugins: Seq<LoadedPlugin>,
    order: Seq<usize>,
    i: int,
    k: int,
    j: int,
)
    requires
        names_of(plugins).no_duplicates(),
        order::is_stable_order(dependency_graph(plugins), order),
        order.len() == plugins.len(),
        0 <= i < plugins.len(),
        0 <= j < plugins.len(),
        0 <= k < plugins[i].config.dependencies@.len(),
        plugins[i].config.dependencies@[k]@ == plugins[j].name@,
    ensures
        exists|a: int, b: int|
            0 <= a < b < picked(plugins, order).len() && #[trigger] picked(plugins, order)[a]
                == plugins[j] && #[trigger] picked(plugins, order)[b] == plugins[i],
{
    let names = names_of(plugins);
    assert(names[j] == listed(plugins, i)[k]);
    assert(text::place_of(names, listed(plugins, i)[k]) == j) by {
        let at = text::place_of(names, listed(plugins, i)[k]);
        assert(names[at] == names[j]);
    }
    assert(!is_missing(plugins, i, k)) by {
        assert(names.contains(names[j]));
    }
    dependencies_are_loaded_first(plugins, order, i, k);
    let out = picked(plugins, order);
    let (a, b) = choose|a: int, b: int|
        0 <= a < b < order.len() && out[a].name@ == listed(plugins, i)[k] && out[b] == plugins[i]
            && #[trigger] order[a] == j && #[trigger] order[b] == i;
    assert(out[a] == plugins[j] && out[b] == plugins[i]);
}

/// A plugin other than the top-level world is loaded behind one that came later only for a
/// reason: it names a plugin that is loaded in between.
pub proof fn plugins_keep_their_order_unless_asked(
    plugins: Seq<LoadedPlugin>,
    order: Seq<usize>,
    x: int,
    y: int,
)
    requires
        order::is_stable_order(dependency_graph(plugins), order),
        order.len() == plugins.len(),
        forall|i: int, k: int| !#[trigger] is_missing(plugins, i, k),
        0 <= x < y < order.len(),
        order[y] < order[x],
        plugins[order[y] as int].name@ != ROOT_PLUGIN@,
    ensures
        exists|z: int, k: int|
            {
                &&& x <= z < y
                &&& 0 <= k < plugins[order[y] as int].config.dependencies@.len()
                &&& (#[trigger] plugins[order[y] as int].config.dependencies@[k])@ == (
                #[trigger] picked(plugins, order)[z]).name@
            },
{
    let graph = dependency_graph(plugins);
    let names = names_of(plugins);
    order::order_has_no_duplicates(graph, order);
    order::distinct_nodes_fit(order, usize::MAX as nat + 1);
    order::overtaking_has_a_reason(graph, order, x, y);
    let z = choose|z: int| x <= z < y && graph[order[y] as int].contains(#[trigger] order[z]);
    let node = order[y] as int;
    assert(order::ready(graph, order.take(y), order[y] as int));
    assert(names[node] == plugins[node].name@);
    let k = choose|k: int| 0 <= k < graph[node].len() && graph[node][k] == order[z];
    assert(k < listed(plugins, node).len());
    assert(!is_missing(plugins, node, k));
    let wanted = listed(plugins, node)[k];
    let at = text::place_of(names, wanted);
    assert(names[at] == wanted);
    assert(graph[node][k] == at as usize);
    assert(plugins[node].config.dependencies@[k]@ == wanted);
    assert(picked(plugins, order)[z].name@ == wanted);
}

/// A dependency is missing exactly if no plugin has the name that is written there.
pub proof fn missing_dependencies_name_no_plugin(plugins: Seq<LoadedPlugin>, i: int, k: int)
    requires
        0 <= i < plugins.len(),
        0 <= k < plugins[i].config.dependencies@.len(),
    ensures
        is_missing(plugins, i, k) <==> forall|j: int|
            0 <= j < plugins.len() ==> (#[trigger] plugins[j]).name@
                != plugins[i].config.dependencies@[k]@,
{
    let names = names_of(plugins);
    let wanted = plugins[i].config.dependencies@[k]@;
    assert(listed(plugins, i)[k] == wanted);
    if names.contains(wanted) {
        let j = choose|j: int| 0 <= j < names.len() && names[j] == wanted;
        assert(plugins[j].name@ == wanted);
    }
    if exists|j: int| 0 <= j < plugins.len() && (#[trigger] plugins[j]).name@ == wanted {
        let j = choose|j: int| 0 <= j < plugins.len() && (#[trigger] plugins[j]).name@ == wanted;
        assert(names[j] == wanted);
    }
}

/// The modules of a plugin are followed in the order in which it lists them, before anything that
/// was left to follow already: the next reference is to its first module, then to its second.
pub proof fn modules_are_followed_in_order(
    left: Seq<(Seq<char>, Seq<char>)>,
    modules: Seq<Seq<char>>,
    base_dir: Seq<char>,
    i: int,
)
    ensures
        ({
            let pending = left + module_references(modules, base_dir);
            &&& pending.len() == left.len() + modules.len()
            &&& 0 <= i < modules.len() ==> pending[pending.len() - 1 - i] == (modules[i], base_dir)
            &&& 0 <= i < left.len() ==> pending[i] == left[i]
        }),
{
}

/// A file counts as loaded exactly if a plugin of its name came from that very file.
pub proof fn loaded_files_belong_to_plugins(s: LoaderState, path: Seq<char>)
    requires
        names_of(s.plugins).no_duplicates(),
        s.files.len() == s.plugins.len(),
    ensures
        s.has_file(path) <==> exists|j: int|
            0 <= j < s.plugins.len() && (#[trigger] s.plugins[j]).name@ == plugin_name(path)
                && s.files[j] == path,
{
    let names = names_of(s.plugins);
    let name = plugin_name(path);
    if names.contains(name) {
        let at = text::place_of(names, name);
        assert(names[at] == name);
        assert(s.plugins[at].name@ == name);
    }
    if exists|j: int|
        0 <= j < s.plugins.len() && (#[trigger] s.plugins[j]).name@ == name && s.files[j] == path {
        let j = choose|j: int|
            0 <= j < s.plugins.len() && (#[trigger] s.plugins[j]).name@ == name && s.files[j]
                == path;
        assert(names[j] == name);
        assert(names.contains(name));
        assert(names[text::place_of(names, name)] == names[j]);
    }
}

/// Only references to files that are loaded are passed over; the first that is not is followed.
pub proof fn only_loaded_files_are_passed_over(s: LoaderState)
    ensures
        s.left_to_follow() <= s.pending.len(),
        s.left_to_follow() > 0 ==> !s.has_file(
            plugin_path(
                s.pending[s.left_to_follow() - 1].1,
                s.pending[s.left_to_follow() - 1].0,
            ),
        ),
        forall|i: int|
            s.left_to_follow() <= i < s.pending.len() ==> s.has_file(
                plugin_path((#[trigger] s.pending[i]).1, s.pending[i].0),
            ),
    decreases s.pending.len(),
{
    if s.pending.len() > 0 {
        let (rel, base_dir) = s.pending.last();
        if s.has_file(plugin_path(base_dir, rel)) {
            let shorter = LoaderState { pending: s.pending.drop_last(), ..s };
            only_loaded_files_are_passed_over(shorter);
            assert(forall|p: Seq<char>| shorter.has_file(p) == s.has_file(p));
            assert forall|i: int| s.left_to_follow() <= i < s.pending.len() implies s.has_file(
                plugin_path((#[trigger] s.pending[i]).1, s.pending[i].0),
            ) by {
                if i < shorter.pending.len() {
                    assert(shorter.pending[i] == s.pending[i]);
                }
            }
        }
    }
}

/// A module that is named without an extension lies in a `.ron` file of that name in the
/// directory of the plugin that names it, and the plugin in it goes by that name.
pub proof fn modules_lie_beside_their_plugin(dir: Seq<char>, name: Seq<char>, extension: Seq<char>)
    requires
        name.len() > 0,
        !name.contains('/'),
        !name.contains('.'),
        extension.len() > 0,
        !extension.contains('/'),
        !extension.contains('.'),
        dir.len() == 0 || dir.last() != '/',
    ensures
        dir.len() > 0 ==> plugin_path(dir, name) == dir + "/"@ + name + ".ron"@,
        dir.len() == 0 ==> plugin_path(dir, name) == name + ".ron"@,
        plugin_name(plugin_path(dir, name)) == name,
        dir.len() > 0 ==> plugin_path(dir, name.push('.') + extension) == dir + "/"@ + name + "."@
            + extension,
        dir.len() > 0 ==> plugin_name(plugin_path(dir, name.push('.') + extension)) == name,
{
    reveal_strlit("/");
    reveal_strlit(".");
    reveal_strlit("ron");
    reveal_strlit(".ron");
    let ron = "ron"@;
    assert(name[0] != '.' && name[0] != '/');
    assert(name != seq!['.'] && name != seq!['.', '.']);
    assert(!ron.contains('/') && !ron.contains('.'));
    paths::missing_extensions_are_added(dir, name, ron);
    paths::names_are_cut_at_the_last_dot(dir, name, ron);
    paths::names_are_cut_at_the_last_dot(dir, name, extension);
    let full = name.push('.') + extension;
    assert(full[0] == name[0]);
    assert(full != seq!['.', '.'] && full != seq!['.']);
    assert(name.push('.') + ron != seq!['.', '.']) by {
        assert((name.push('.') + ron)[0] == name[0]);
    }
    assert(!full.contains('/')) by {
        if full.contains('/') {
            let j = choose|j: int| 0 <= j < full.len() && full[j] == '/';
            if j < name.len() {
                assert(name[j] == '/');
            } else if j > name.len() {
                assert(extension[j - name.len() - 1] == '/');
            }
        }
    }
    paths::missing_extensions_are_added(dir, full, ron);
    if dir.len() > 0 {
        assert(paths::joined_path(dir, name) =~= dir.push('/') + name);
        assert(paths::joined_path(dir, full) =~= dir.push('/') + full);
        assert(dir.push('/') + name + seq!['.'] + ron =~= dir + "/"@ + name + ".ron"@);
        assert(dir.push('/') + full =~= dir + "/"@ + name + "."@ + extension);
        assert(plugin_path(dir, name) =~= dir.push('/') + (name.push('.') + ron));
    } else {
        assert(paths::joined_path(dir, name) =~= name);
        assert(plugin_path(dir, name) =~= name.push('.') + ron);
        assert(name + seq!['.'] + ron =~= name + ".ron"@);
        paths::bare_names_are_cut_at_the_last_dot(name, ron);
    }
}

/// A second file for a plugin adds to what that plugin depends on, behind what it listed, and
/// changes nothing else: no other plugin, and no component, event, entity, system, seed or module.
pub proof fn a_second_file_adds_dependencies_alone(
    before: Seq<LoadedPlugin>,
    after: Seq<LoadedPlugin>,
    at: int,
    added: Seq<Seq<char>>,
    j: int,
)
    requires
        only_dependencies_added(before, after, at, added),
    ensures
        after.len() == before.len(),
        0 <= j < before.len() && j != at ==> after[j] == before[j],
        after[at].name == before[at].name,
        after[at].base_dir == before[at].base_dir,
        after[at].config.components == before[at].config.components,
        after[at].config.events == before[at].config.events,
        after[at].config.entities == before[at].config.entities,
        after[at].config.systems == before[at].config.systems,
        after[at].config.seed == before[at].config.seed,
        after[at].config.modules == before[at].config.modules,
        ({
            let was = before[at].config.dependencies@;
            let now = after[at].config.dependencies@;
            &&& now.len() == was.len() + added.len()
            &&& 0 <= j < was.len() ==> now[j]@ == was[j]@
            &&& 0 <= j < added.len() ==> now[was.len() + j]@ == added[j]
        }),
{
    let was = before[at].config.dependencies@;
    let now = after[at].config.dependencies@;
    assert(listed(after, at).len() == now.len());
    assert(listed(before, at).len() == was.len());
    if 0 <= j < was.len() {
        assert(listed(after, at)[j] == listed(before, at)[j]);
    }
    if 0 <= j < added.len() {
        assert(listed(after, at)[was.len() + j] == added[j]);
    }
}

/// Sorting for loading succeeds only if every dependency names a plugin. All plugins are loaded
/// then, each behind the plugins that it names, and the top-level world is the last.
pub proof fn sorted_plugins_follow_what_they_name(
    graph: PluginGraph,
    sorted: Result<Vec<LoadedPlugin>, VmError>,
    i: int,
    k: int,
    j: int,
)
    requires
        names_of(graph@).no_duplicates(),
        call_ensures(PluginGraph::topo_sort, (graph,), sorted),
        sorted is Ok,
        0 <= i < graph@.len(),
        0 <= j < graph@.len(),
    ensures
        sorted->Ok_0@.len() == graph@.len(),
        sorted->Ok_0@.contains(graph@[i]),
        graph@[i].name@ == "<root>"@ ==> sorted->Ok_0@.last() == graph@[i],
        0 <= k < graph@[i].config.dependencies@.len() ==> exists|p: int|
            0 <= p < graph@.len() && (#[trigger] graph@[p]).name@
                == graph@[i].config.dependencies@[k]@,
        0 <= k < graph@[i].config.dependencies@.len() && graph@[i].config.dependencies@[k]@
            == graph@[j].name@ ==> exists|a: int, b: int|
            0 <= a < b < sorted->Ok_0@.len() && #[trigger] sorted->Ok_0@[a] == graph@[j]
                && #[trigger] sorted->Ok_0@[b] == graph@[i],
{
    let plugins = graph@;
    let order = choose|order: Seq<usize>| #[trigger]
        order::is_stable_order(dependency_graph(plugins), order) && order.len() == plugins.len()
            && sorted->Ok_0@ == picked(plugins, order);
    every_plugin_is_loaded_once(plugins, order, i);
    if plugins[i].name@ == ROOT_PLUGIN@ {
        the_root_is_loaded_last(plugins, order, i);
    }
    if 0 <= k < plugins[i].config.dependencies@.len() {
        missing_dependencies_name_no_plugin(plugins, i, k);
        assert(!is_missing(plugins, i, k));
        if plugins[i].config.dependencies@[k]@ == plugins[j].name@ {
            named_plugins_are_loaded_before(plugins, order, i, k, j);
        }
    }
}

/// Sorting is refused over a missing dependency exactly if some plugin names one that no plugin is
/// called, and the refusal tells such a plugin and such a name.
pub proof fn missing_dependencies_are_told(
    graph: PluginGraph,
    sorted: Result<Vec<LoadedPlugin>, VmError>,
    i: int,
    k: int,
)
    requires
        call_ensures(PluginGraph::topo_sort, (graph,), sorted),
        0 <= i < graph@.len(),
        0 <= k < graph@[i].config.dependencies@.len(),
        forall|j: int|
            0 <= j < graph@.len() ==> (#[trigger] graph@[j]).name@
                != graph@[i].config.dependencies@[k]@,
    ensures
        sorted is Err,
        sorted->Err_0 is ModuleMissingDependency,
        forall|j: int|
            0 <= j < graph@.len() ==> (#[trigger] graph@[j]).name@
                != sorted->Err_0->ModuleMissingDependency_missing@,
        exists|p: int, q: int|
            {
                &&& 0 <= p < graph@.len()
                &&& 0 <= q < graph@[p].config.dependencies@.len()
                &&& (#[trigger] graph@[p].config.dependencies@[q])@
                    == sorted->Err_0->ModuleMissingDependency_missing@
                &&& graph@[p].name@ == sorted->Err_0->ModuleMissingDependency_module@
            },
{
    let plugins = graph@;
    missing_dependencies_name_no_plugin(plugins, i, k);
    assert(is_missing(plugins, i, k));
    let missing = sorted->Err_0->ModuleMissingDependency_missing@;
    let module = sorted->Err_0->ModuleMissingDependency_module@;
    let (p, q) = choose|p: int, q: int| #[trigger]
        is_first_missing(plugins, p, q) && module == plugins[p].name@ && missing == listed(
            plugins,
            p,
        )[q];
    assert(is_missing(plugins, p, q));
    missing_dependencies_name_no_plugin(plugins, p, q);
    assert(plugins[p].config.dependencies@[q]@ == missing);
}

/// After the file of a new plugin was taken in, its modules are asked for, the first one first,
/// unless that one was loaded before. The plugin is the last of those collected.
pub proof fn a_new_plugin_is_followed_by_its_modules(
    loader: &mut PluginLoader,
    request: FileRequest,
    config: WorldConfig,
    base_dir: String,
    then: &mut PluginLoader,
    asked: Option<FileRequest>,
)
    requires
        call_ensures(PluginLoader::supply, (loader, request, config, base_dir), ()),
        forall|j: int|
            0 <= j < old(loader)@.plugins.len() ==> (#[trigger] old(loader)@.plugins[j]).name@
                != request.name@,
        final(loader)@ == old(then)@,
        call_ensures(PluginLoader::next, (then,), asked),
        config.modules@.len() > 0,
    ensures
        final(then)@.plugins.len() == old(loader)@.plugins.len() + 1,
        final(then)@.plugins.last().name@ == request.name@,
        final(then)@.plugins.last().config == config,
        final(then)@.plugins.last().base_dir@ == base_dir@,
        final(then)@.plugins.drop_last() == old(loader)@.plugins,
        ({
            let first = plugin_path(base_dir@, config.modules@[0]@);
            !old(then)@.has_file(first) ==> asked is Some && asked->Some_0.path@ == first
                && asked->Some_0.name@ == plugin_name(first)
        }),
{
    let names = names_of(old(loader)@.plugins);
    if names.contains(request.name@) {
        let j = choose|j: int| 0 <= j < names.len() && names[j] == request.name@;
        assert(old(loader)@.plugins[j].name@ == request.name@);
    }
    let modules = text::texts(config.modules@);
    modules_are_followed_in_order(old(loader)@.pending, modules, base_dir@, 0);
    let state = old(then)@;
    assert(modules[0] == config.modules@[0]@);
    assert(state.pending.last() == (config.modules@[0]@, base_dir@));
    assert(final(then)@.plugins.drop_last() =~= old(loader)@.plugins);
}

/// A second file for a plugin brings no further files and no further plugin along.
pub proof fn a_second_file_is_not_followed(
    loader: &mut PluginLoader,
    request: FileRequest,
    config: WorldConfig,
    base_dir: String,
    at: int,
)
    requires
        call_ensures(PluginLoader::supply, (loader, request, config, base_dir), ()),
        0 <= at < old(loader)@.plugins.len(),
        old(loader)@.plugins[at].name@ == request.name@,
    ensures
        final(loader)@.pending == old(loader)@.pending,
        final(loader)@.files == old(loader)@.files,
        final(loader)@.plugins.len() == old(loader)@.plugins.len(),
{
    let names = names_of(old(loader)@.plugins);
    assert(names[at] == request.name@);
    assert(names.contains(request.name@));
}

/// Loading starts with the top-level world alone, and asks for its modules in their order: the
/// first is asked for first, unless the world is that file itself. Without modules nothing is
/// asked for.
pub proof fn loading_starts_at_the_top(
    path: String,
    config: WorldConfig,
    base_dir: String,
    loader: PluginLoader,
    then: &mut PluginLoader,
    asked: Option<FileRequest>,
)
    requires
        call_ensures(PluginLoader::start, (path, config, base_dir), loader),
        loader@ == old(then)@,
        call_ensures(PluginLoader::next, (then,), asked),
    ensures
        loader@.plugins.len() == 1,
        loader@.plugins[0].name@ == "<root>"@,
        loader@.plugins[0].config == config,
        loader@.plugins[0].base_dir@ == base_dir@,
        config.modules@.len() == 0 ==> asked is None,
        config.modules@.len() > 0 && plugin_name(plugin_path(base_dir@, config.modules@[0]@))
            != "<root>"@ ==> asked is Some && asked->Some_0.path@ == plugin_path(
            base_dir@,
            config.modules@[0]@,
        ),
{
    let modules = text::texts(config.modules@);
    let state = old(then)@;
    if config.modules@.len() > 0 {
        let first = plugin_path(base_dir@, config.modules@[0]@);
        assert(modules[0] == config.modules@[0]@);
        assert(state.pending.last() == (config.modules@[0]@, base_dir@));
        if plugin_name(first) != ROOT_PLUGIN@ {
            let names = names_of(state.plugins);
            assert(names.len() == 1 && names[0] == ROOT_PLUGIN@);
            assert(!names.contains(plugin_name(first)));
            assert(!state.has_file(first));
        }
    }
}

/// A plugin file has the format that its extension tells, in whatever case it is written, and any
/// other extension is refused.
pub proof fn plugin_formats_go_by_extension(
    path: &str,
    dir: Seq<char>,
    stem: Seq<char>,
    extension: Seq<char>,
    format: Result<ConfigFormat, VmError>,
)
    requires
        path@ == dir.push('/') + (stem.push('.') + extension),
        stem.len() > 0,
        !stem.contains('/'),
        stem[0] != '.',
        !extension.contains('/'),
        !extension.contains('.'),
        call_ensures(plugin_format, (path,), format),
    ensures
        extension == "ron"@ ==> format == Ok::<ConfigFormat, VmError>(ConfigFormat::Ron),
        extension == "json"@ ==> format == Ok::<ConfigFormat, VmError>(ConfigFormat::Json),
        format is Ok <==> text::ascii_lower(extension) == "ron"@ || text::ascii_lower(extension)
            == "json"@,
{
    assert((stem.push('.') + extension)[0] == stem[0]);
    paths::names_are_cut_at_the_last_dot(dir, stem, extension);
    crate::config::extensions_tell_formats_in_any_case(extension);
    crate::config::extensions_tell_formats_in_any_case(text::ascii_lower(extension));
}

/// Whether some plugin has this name.
pub open spec fn is_plugin(plugins: Seq<LoadedPlugin>, name: Seq<char>) -> bool {
    exists|j: int| 0 <= j < plugins.len() && (#[trigger] plugins[j]).name@ == name
}

/// A refusal over a missing dependency tells the first: of the first plugin that lists one, and in
/// its list the first.
pub proof fn the_first_missing_dependency_is_told(
    graph: PluginGraph,
    sorted: Result<Vec<LoadedPlugin>, VmError>,
) -> (found: (int, int))
    requires
        call_ensures(PluginGraph::topo_sort, (graph,), sorted),
        sorted is Err,
        sorted->Err_0 is ModuleMissingDependency,
    ensures
        ({
            let (i, k) = found;
            let list = graph@[i].config.dependencies@;
            &&& 0 <= i < graph@.len()
            &&& 0 <= k < list.len()
            &&& sorted->Err_0->ModuleMissingDependency_module@ == graph@[i].name@
            &&& sorted->Err_0->ModuleMissingDependency_missing@ == list[k]@
            &&& !is_plugin(graph@, list[k]@)
            &&& forall|m: int| 0 <= m < k ==> is_plugin(graph@, (#[trigger] list[m])@)
            &&& forall|j: int, m: int|
                0 <= j < i && 0 <= m < graph@[j].config.dependencies@.len() ==> is_plugin(
                    graph@,
                    (#[trigger] graph@[j].config.dependencies@[m])@,
                )
        }),
{
    let plugins = graph@;
    let module = sorted->Err_0->ModuleMissingDependency_module@;
    let missing = sorted->Err_0->ModuleMissingDependency_missing@;
    let (i, k) = choose|i: int, k: int| #[trigger]
        is_first_missing(plugins, i, k) && module == plugins[i].name@ && missing == listed(
            plugins,
            i,
        )[k];
    assert(is_missing(plugins, i, k));
    missing_dependencies_name_no_plugin(plugins, i, k);
    let list = plugins[i].config.dependencies@;
    assert forall|m: int| 0 <= m < k implies is_plugin(plugins, (#[trigger] list[m])@) by {
        missing_dependencies_name_no_plugin(plugins, i, m);
        assert(!is_missing(plugins, i, m));
    }
    assert forall|j: int, m: int|
        0 <= j < i && 0 <= m < plugins[j].config.dependencies@.len() implies is_plugin(
        plugins,
        (#[trigger] plugins[j].config.dependencies@[m])@,
    ) by {
        missing_dependencies_name_no_plugin(plugins, j, m);
        assert(!is_missing(plugins, j, m));
    }
    (i, k)
}

/// A refusal over a circle tells the names around it, with arrows between them: it begins and ends
/// with the same plugin, and each plugin in it lists the next as a dependency, or is the top-level
/// world, which is loaded behind all others.
pub proof fn circles_of_plugins_are_told(
    graph: PluginGraph,
    sorted: Result<Vec<LoadedPlugin>, VmError>,
) -> (circle: Seq<usize>)
    requires
        graph@.len() <= usize::MAX,
        call_ensures(PluginGraph::topo_sort, (graph,), sorted),
        sorted is Err,
        sorted->Err_0 is ModuleCycle,
    ensures
        circle.len() >= 2,
        circle[0] == circle.last(),
        forall|i: int| 0 <= i < circle.len() ==> #[trigger] circle[i] < graph@.len(),
        forall|i: int|
            #![trigger circle[i]]
            0 <= i < circle.len() - 1 ==> {
                let here = graph@[circle[i] as int];
                ||| here.name@ == "<root>"@
                ||| exists|k: int|
                    0 <= k < here.config.dependencies@.len() && (
                    #[trigger] here.config.dependencies@[k])@ == graph@[circle[i + 1] as int].name@
            },
        sorted->Err_0->ModuleCycle_chain@ == text::joined(
            Seq::new(circle.len(), |i: int| graph@[circle[i] as int].name@),
            " -> "@,
        ),
{
    let plugins = graph@;
    let names = names_of(plugins);
    let edges = dependency_graph(plugins);
    let chain = sorted->Err_0->ModuleCycle_chain@;
    let (order, circle) = choose|order: Seq<usize>, circle: Seq<usize>|
        {
            &&& #[trigger] order::is_stable_order(edges, order)
            &&& #[trigger] order::is_found_cycle(edges, order, circle)
            &&& chain == text::joined(trail_names(plugins, circle), " -> "@)
        };
    order::found_circles_close(edges, order, circle, 0, 0);
    assert forall|i: int| 0 <= i < circle.len() implies #[trigger] circle[i] < plugins.len() by {
        order::found_circles_close(edges, order, circle, i, i);
    }
    assert forall|i: int|
        #![trigger circle[i]]
        0 <= i < circle.len() - 1 implies {
            let here = plugins[circle[i] as int];
            ||| here.name@ == "<root>"@
            ||| exists|k: int|
                0 <= k < here.config.dependencies@.len() && (
                #[trigger] here.config.dependencies@[k])@ == plugins[circle[i + 1] as int].name@
        } by {
        order::found_circles_close(edges, order, circle, i, i);
        let p = circle[i] as int;
        let q = circle[i + 1] as int;
        let here = plugins[p];
        assert(names[p] == here.name@);
        if here.name@ != ROOT_PLUGIN@ {
            let k = choose|k: int| 0 <= k < edges[p].len() && edges[p][k] == circle[i + 1];
            assert(k < listed(plugins, p).len());
            assert(!is_missing(plugins, p, k));
            let wanted = listed(plugins, p)[k];
            let at = text::place_of(names, wanted);
            assert(names[at] == wanted);
            assert(edges[p][k] == at as usize);
            assert(names[q] == plugins[q].name@);
            assert(here.config.dependencies@[k]@ == wanted);
        }
    }
    assert(trail_names(plugins, circle) =~= Seq::new(
        circle.len(),
        |i: int| plugins[circle[i] as int].name@,
    ));
    circle
}

} // verus!
