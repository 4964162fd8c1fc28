//! The order in which the script systems of a world run.
//!
//! Every system belongs to the set named after its plugin and to the sets it joins. A `before` or
//! `after` names a set or, failing that, one system as `plugin::stem`. The systems of one plugin
//! keep their declared order; where nothing else decides, systems run in the order of the plugins.
use vstd::prelude::*;
use vstd::string::*;

use crate::config::SystemConfig;
use crate::error::VmError;
use crate::order;
use crate::paths;
use crate::plugin_loader::LoadedPlugin;
use crate::text;

verus! {

/// What scheduling knows of one script system.
pub struct ScriptMeta {
    /// The position of its plugin.
    pub plugin: usize,
    /// Its position among the systems of the plugin.
    pub system: usize,
    pub plugin_name: String,
    /// `plugin::stem`.
    pub full_name: String,
    /// The sets it belongs to.
    pub sets: Vec<String>,
    pub before: Vec<String>,
    pub after: Vec<String>,
}

/// The content of a [`ScriptMeta`].
#[verifier::ext_equal]
pub struct ScriptInfo {
    pub plugin: int,
    pub system: int,
    pub plugin_name: Seq<char>,
    pub full_name: Seq<char>,
    pub sets: Seq<Seq<char>>,
    pub before: Seq<Seq<char>>,
    pub after: Seq<Seq<char>>,
}

impl View for ScriptMeta {
    type V = ScriptInfo;

    open spec fn view(&self) -> ScriptInfo {
        ScriptInfo {
            plugin: self.plugin as int,
            system: self.system as int,
            plugin_name: self.plugin_name@,
            full_name: self.full_name@,
            sets: text::texts(self.sets@),
            before: text::texts(self.before@),
            after: text::texts(self.after@),
        }
    }
}

pub open spec fn infos(metas: Seq<ScriptMeta>) -> Seq<ScriptInfo> {
    metas.map_values(|m: ScriptMeta| m@)
}

/// The name of the script in a file: its stem, or the whole path if it has none.
pub open spec fn script_stem(path: Seq<char>) -> Seq<char> {
    match paths::file_stem_of(path) {
        Some(stem) => stem,
        None => path,
    }
}

/// What scheduling knows of system `i` of the plugin at position `p`.
pub open spec fn script_info(plugin: LoadedPlugin, p: int, i: int) -> ScriptInfo {
    match plugin.config.systems@[i] {
        SystemConfig::Script { path, before, after, in_set, run_if } => ScriptInfo {
            plugin: p,
            system: i,
            plugin_name: plugin.name@,
            full_name: plugin.name@ + "::"@ + script_stem(path@),
            sets: seq![plugin.name@] + text::texts(in_set@),
            before: text::texts(before@),
            after: text::texts(after@),
        },
    }
}

/// The systems of the plugin at position `p`.
pub open spec fn plugin_scripts(plugin: LoadedPlugin, p: int) -> Seq<ScriptInfo> {
    Seq::new(plugin.config.systems@.len(), |i: int| script_info(plugin, p, i))
}

/// The systems of the first `n` plugins.
pub open spec fn all_scripts(plugins: Seq<LoadedPlugin>, n: nat) -> Seq<ScriptInfo>
    decreases n,
{
    if n == 0 {
        Seq::empty()
    } else {
        all_scripts(plugins, (n - 1) as nat) + plugin_scripts(plugins[n - 1], n - 1)
    }
}

/// Whether a set of this name has a member.
pub open spec fn is_set(scripts: Seq<ScriptInfo>, name: Seq<char>) -> bool {
    exists|i: int| 0 <= i < scripts.len() && (#[trigger] scripts[i]).sets.contains(name)
}

/// Whether `name` stands for system `i`: as a set that it belongs to or, if there is no such set,
/// as its full name, where the last of several systems of one name counts.
pub open spec fn stands_for(scripts: Seq<ScriptInfo>, name: Seq<char>, i: int) -> bool {
    &&& 0 <= i < scripts.len()
    &&& if is_set(scripts, name) {
        scripts[i].sets.contains(name)
    } else {
        scripts[i].full_name == name && forall|j: int|
            i < j < scripts.len() ==> (#[trigger] scripts[j]).full_name != name
    }
}

/// Whether `name` stands for any system.
pub open spec fn resolves(scripts: Seq<ScriptInfo>, name: Seq<char>) -> bool {
    exists|i: int| #[trigger] stands_for(scripts, name, i)
}

/// Whether one of `names` stands for system `i`.
pub open spec fn one_stands_for(
    scripts: Seq<ScriptInfo>,
    names: Seq<Seq<char>>,
    i: int,
) -> bool {
    exists|k: int| 0 <= k < names.len() && stands_for(scripts, #[trigger] names[k], i)
}

/// Whether system `from` has to run before system `to`: they follow each other in one plugin, or
/// one of them asks for it.
pub open spec fn runs_before(scripts: Seq<ScriptInfo>, from: int, to: int) -> bool {
    &&& from != to
    &&& {
        ||| to == from + 1 && scripts[from].plugin_name == scripts[to].plugin_name
        ||| one_stands_for(scripts, scripts[from].before, to)
        ||| one_stands_for(scripts, scripts[to].after, from)
    }
}

/// Those of the first `n` systems that have to run before system `to`.
pub open spec fn earlier(scripts: Seq<ScriptInfo>, to: int, n: nat) -> Seq<usize>
    decreases n,
{
    if n == 0 {
        Seq::empty()
    } else if runs_before(scripts, n - 1, to) {
        earlier(scripts, to, (n - 1) as nat).push((n - 1) as usize)
    } else {
        earlier(scripts, to, (n - 1) as nat)
    }
}

/// For every system those that have to run before it.
pub open spec fn run_graph(scripts: Seq<ScriptInfo>) -> Seq<Seq<usize>> {
    Seq::new(scripts.len(), |i: int| earlier(scripts, i, scripts.len()))
}

/// Whether system `i` names, in place `k` of its `before` or else of its `after`, something that
/// stands for no system.
pub open spec fn is_unknown(scripts: Seq<ScriptInfo>, i: int, in_before: bool, k: int) -> bool {
    &&& 0 <= i < scripts.len()
    &&& ({
        let names = if in_before {
            scripts[i].before
        } else {
            scripts[i].after
        };
        0 <= k < names.len() && !resolves(scripts, names[k])
    })
}

/// Whether place `a` in the list is checked before place `b`: by system, `before` ahead of
/// `after`, then by place.
pub open spec fn checked_before(a: (int, bool, int), b: (int, bool, int)) -> bool {
    a.0 < b.0 || (a.0 == b.0 && ((a.1 && !b.1) || (a.1 == b.1 && a.2 < b.2)))
}

/// Whether this is the first name that stands for no system.
pub open spec fn is_first_unknown(
    scripts: Seq<ScriptInfo>,
    i: int,
    in_before: bool,
    k: int,
) -> bool {
    &&& is_unknown(scripts, i, in_before, k)
    &&& forall|j: int, b: bool, m: int| #[trigger]
        is_unknown(scripts, j, b, m) ==> !checked_before((j, b, m), (i, in_before, k))
}

/// The full names of the systems around a circle.
pub open spec fn circle_names(scripts: Seq<ScriptInfo>, circle: Seq<usize>) -> Seq<Seq<char>> {
    circle.map_values(|i: usize| scripts[i as int].full_name)
}

/// Gathers what scheduling needs to know of every script system.
pub fn script_metas(plugins: &Vec<LoadedPlugin>) -> (metas: Vec<ScriptMeta>)
    ensures
        infos(metas@) == all_scripts(plugins@, plugins@.len()),
{
    let mut metas: Vec<ScriptMeta> = Vec::new();
    let mut p: usize = 0;
    assert(infos(metas@) =~= Seq::<ScriptInfo>::empty());
    while p < plugins.len()
        invariant
            p <= plugins.len(),
            infos(metas@) == all_scripts(plugins@, p as nat),
        decreases plugins.len() - p,
    {
        let plugin = &plugins[p];
        let ghost before_plugin = infos(metas@);
        let ghost own = plugin_scripts(*plugin, p as int);
        let mut i: usize = 0;
        assert(before_plugin + own.take(0) =~= before_plugin);
        while i < plugin.config.systems.len()
            invariant
                i <= plugin.config.systems.len(),
                own == plugin_scripts(*plugin, p as int),
                infos(metas@) == before_plugin + own.take(i as int),
            decreases plugin.config.systems.len() - i,
        {
            let ghost so_far = metas@;
            let SystemConfig::Script { path, before, after, in_set, run_if: _ } =
                &plugin.config.systems[i];
            let stem = match paths::file_stem(path.as_str()) {
                Some(stem) => stem,
                None => path.clone(),
            };
            let mut full_name = plugin.name.clone();
            full_name.append("::");
            full_name.append(stem.as_str());
            let mut sets: Vec<String> = Vec::new();
            sets.push(plugin.name.clone());
            let mut joined = text::copy_list(in_set);
            sets.append(&mut joined);
            let meta = ScriptMeta {
                plugin: p,
                system: i,
                plugin_name: plugin.name.clone(),
                full_name,
                sets,
                before: text::copy_list(before),
                after: text::copy_list(after),
            };
            proof {
                assert(text::texts(sets@) =~= seq![plugin.name@] + text::texts(in_set@));
                assert(meta@ =~= script_info(*plugin, p as int, i as int));
            }
            metas.push(meta);
            proof {
                assert(infos(metas@) =~= infos(so_far).push(meta@));
                assert(own.take(i + 1) =~= own.take(i as int).push(own[i as int]));
            }
            i += 1;
        }
        assert(own.take(own.len() as int) =~= own);
        p += 1;
    }
    metas
}

/// Whether a set of this name has a member.
fn set_exists(metas: &Vec<ScriptMeta>, name: &str) -> (found: bool)
    ensures
        found == is_set(infos(metas@), name@),
{
    let ghost scripts = infos(metas@);
    let mut i: usize = 0;
    while i < metas.len()
        invariant
            i <= metas.len(),
            scripts == infos(metas@),
            forall|j: int| 0 <= j < i ==> !(#[trigger] scripts[j]).sets.contains(name@),
        decreases metas.len() - i,
    {
        assert(scripts[i as int] == metas@[i as int]@);
        if text::holds(&metas[i].sets, name) {
            assert(scripts[i as int].sets.contains(name@));
            return true;
        }
        i += 1;
    }
    false
}

/// Whether `name` stands for system `i`.
fn names_system(metas: &Vec<ScriptMeta>, name: &str, i: usize) -> (yes: bool)
    requires
        i < metas.len(),
    ensures
        yes == stands_for(infos(metas@), name@, i as int),
{
    let ghost scripts = infos(metas@);
    assert(scripts[i as int] == metas@[i as int]@);
    if set_exists(metas, name) {
        return text::holds(&metas[i].sets, name);
    }
    if !text::same_text(metas[i].full_name.as_str(), name) {
        return false;
    }
    let mut j: usize = i + 1;
    while j < metas.len()
        invariant
            i < j <= metas.len(),
            scripts == infos(metas@),
            forall|x: int| i < x < j ==> (#[trigger] scripts[x]).full_name != name@,
            !is_set(scripts, name@),
        decreases metas.len() - j,
    {
        assert(scripts[j as int] == metas@[j as int]@);
        if text::same_text(metas[j].full_name.as_str(), name) {
            assert(scripts[j as int].full_name == name@);
            return false;
        }
        j += 1;
    }
    true
}

/// Whether `name` stands for any system.
fn resolve_ref(metas: &Vec<ScriptMeta>, name: &str) -> (found: bool)
    ensures
        found == resolves(infos(metas@), name@),
{
    let mut i: usize = 0;
    while i < metas.len()
        invariant
            i <= metas.len(),
            forall|j: int| 0 <= j < i ==> !#[trigger] stands_for(infos(metas@), name@, j),
        decreases metas.len() - i,
    {
        if names_system(metas, name, i) {
            assert(stands_for(infos(metas@), name@, i as int));
            return true;
        }
        i += 1;
    }
    false
}

/// Whether one of `names` stands for system `i`.
fn one_names_system(metas: &Vec<ScriptMeta>, names: &Vec<String>, i: usize) -> (yes: bool)
    requires
        i < metas.len(),
    ensures
        yes == one_stands_for(infos(metas@), text::texts(names@), i as int),
{
    let ghost all = text::texts(names@);
    let mut k: usize = 0;
    while k < names.len()
        invariant
            k <= names.len(),
            i < metas.len(),
            all == text::texts(names@),
            forall|j: int|
                0 <= j < k ==> !stands_for(infos(metas@), #[trigger] all[j], i as int),
        decreases names.len() - k,
    {
        assert(all[k as int] == names@[k as int]@);
        if names_system(metas, names[k].as_str(), i) {
            assert(stands_for(infos(metas@), all[k as int], i as int));
            return true;
        }
        k += 1;
    }
    false
}

/// Whether system `from` has to run before system `to`.
fn must_precede(metas: &Vec<ScriptMeta>, from: usize, to: usize) -> (yes: bool)
    requires
        from < metas.len(),
        to < metas.len(),
    ensures
        yes == runs_before(infos(metas@), from as int, to as int),
{
    let ghost scripts = infos(metas@);
    assert(scripts[from as int] == metas@[from as int]@);
    assert(scripts[to as int] == metas@[to as int]@);
    if from == to {
        return false;
    }
    if from < to && to - from == 1 && text::same_text(
        metas[from].plugin_name.as_str(),
        metas[to].plugin_name.as_str(),
    ) {
        return true;
    }
    one_names_system(metas, &metas[from].before, to) || one_names_system(
        metas,
        &metas[to].after,
        from,
    )
}

/// The first of `names` that stands for no system.
fn first_unknown(metas: &Vec<ScriptMeta>, names: &Vec<String>) -> (found: Option<usize>)
    ensures
        match found {
            Some(k) => k < names.len() && !resolves(infos(metas@), text::texts(names@)[k as int])
                && forall|j: int|
                0 <= j < k ==> resolves(infos(metas@), #[trigger] text::texts(names@)[j]),
            None => forall|j: int|
                0 <= j < names.len() ==> resolves(infos(metas@), #[trigger] text::texts(names@)[j]),
        },
{
    let ghost all = text::texts(names@);
    let mut k: usize = 0;
    while k < names.len()
        invariant
            k <= names.len(),
            all == text::texts(names@),
            forall|j: int| 0 <= j < k ==> resolves(infos(metas@), #[trigger] all[j]),
        decreases names.len() - k,
    {
        assert(all[k as int] == names@[k as int]@);
        if !resolve_ref(metas, names[k].as_str()) {
            return Some(k);
        }
        k += 1;
    }
    None
}

/// Orders script systems: positions in `metas` in the order in which the systems run.
pub fn run_order(metas: &Vec<ScriptMeta>) -> (ordered: Result<Vec<usize>, VmError>)
    ensures
        ({
            let scripts = infos(metas@);
            match ordered {
                Ok(order) => {
                    &&& forall|i: int, b: bool, k: int| !#[trigger] is_unknown(scripts, i, b, k)
                    &&& !order::has_cycle(run_graph(scripts))
                    &&& order::is_stable_order(run_graph(scripts), order@)
                    &&& order.len() == scripts.len()
                    &&& order@.no_duplicates()
                    &&& forall|k: int| 0 <= k < order.len() ==> #[trigger] order@[k] < metas.len()
                },
                Err(VmError::UnknownSystemRef { system, missing, kind }) => exists|
                    i: int,
                    b: bool,
                    k: int,
                |
                    {
                        &&& #[trigger] is_first_unknown(scripts, i, b, k)
                        &&& system@ == scripts[i].full_name
                        &&& missing@ == (if b {
                            scripts[i].before
                        } else {
                            scripts[i].after
                        })[k]
                        &&& kind@ == (if b {
                            "before"@
                        } else {
                            "after"@
                        })
                    },
                Err(VmError::SystemOrderCycle { chain }) => {
                    &&& forall|i: int, b: bool, k: int| !#[trigger] is_unknown(scripts, i, b, k)
                    &&& order::has_cycle(run_graph(scripts))
                    &&& exists|order: Seq<usize>, circle: Seq<usize>|
                        {
                            &&& #[trigger] order::is_stable_order(run_graph(scripts), order)
                            &&& #[trigger] order::is_found_cycle(
                                run_graph(scripts),
                                order,
                                circle,
                            )
                            &&& chain@ == text::joined(circle_names(scripts, circle), " -> "@)
                        }
                },
                Err(_) => false,
            }
        }),
{
    let ghost scripts = infos(metas@);
    let n: usize = metas.len();
    let mut i: usize = 0;
    while i < n
        invariant
            i <= n == metas.len(),
            scripts == infos(metas@),
            forall|j: int, b: bool, k: int| j < i ==> !#[trigger] is_unknown(scripts, j, b, k),
        decreases n - i,
    {
        assert(scripts[i as int] == metas@[i as int]@);
        match first_unknown(metas, &metas[i].before) {
            Some(k) => {
                let system = metas[i].full_name.clone();
                let missing = metas[i].before[k].clone();
                proof {
                    assert(is_unknown(scripts, i as int, true, k as int));
                    assert(is_first_unknown(scripts, i as int, true, k as int));
                }
                return Err(
                    VmError::UnknownSystemRef { system, missing, kind: "before".to_owned() },
                );
            },
            None => {},
        }
        match first_unknown(metas, &metas[i].after) {
            Some(k) => {
                let system = metas[i].full_name.clone();
                let missing = metas[i].after[k].clone();
                proof {
                    assert(is_unknown(scripts, i as int, false, k as int));
                    assert(is_first_unknown(scripts, i as int, false, k as int));
                }
                return Err(
                    VmError::UnknownSystemRef { system, missing, kind: "after".to_owned() },
                );
            },
            None => {},
        }
        i += 1;
    }
    assert forall|j: int, b: bool, k: int| !#[trigger] is_unknown(scripts, j, b, k) by {
        if is_unknown(scripts, j, b, k) {
            assert(j < n);
        }
    }
    let mut before: Vec<Vec<usize>> = Vec::new();
    let mut to: usize = 0;
    while to < n
        invariant
            to <= n == metas.len(),
            scripts == infos(metas@),
            before.len() == to,
            forall|j: int|
                0 <= j < to ==> (#[trigger] before@[j])@ == earlier(scripts, j, scripts.len()),
            forall|j: int, k: int|
                0 <= j < to && 0 <= k < before@[j].len() ==> #[trigger] before@[j]@[k] < n,
        decreases n - to,
    {
        let mut list: Vec<usize> = Vec::new();
        let mut from: usize = 0;
        while from < n
            invariant
                from <= n == metas.len(),
                to < n,
                scripts == infos(metas@),
                list@ == earlier(scripts, to as int, from as nat),
                forall|k: int| 0 <= k < list.len() ==> #[trigger] list@[k] < n,
            decreases n - from,
        {
            if must_precede(metas, from, to) {
                list.push(from);
            }
            from += 1;
        }
        before.push(list);
        to += 1;
    }
    proof {
        assert(order::lists(before@) =~= run_graph(scripts));
        assert forall|a: int, k: int|
            0 <= a < run_graph(scripts).len() && 0 <= k < run_graph(scripts)[a].len() implies
            #[trigger] run_graph(scripts)[a][k] < run_graph(scripts).len() by {
            assert(before@[a]@[k] < n);
        }
    }
    let order = order::stable_order(&before);
    if order.len() < n {
        let circle = order::found_cycle(&before, &order);
        let mut along: Vec<String> = Vec::new();
        let mut k: usize = 0;
        while k < circle.len()
            invariant
                k <= circle.len(),
                scripts == infos(metas@),
                along.len() == k,
                forall|j: int| 0 <= j < circle.len() ==> #[trigger] circle@[j] < metas.len(),
                forall|j: int|
                    0 <= j < k ==> (#[trigger] along@[j])@ == scripts[circle@[j] as int].full_name,
            decreases circle.len() - k,
        {
            assert(scripts[circle@[k as int] as int] == metas@[circle@[k as int] as int]@);
            along.push(metas[circle[k]].full_name.clone());
            k += 1;
        }
        let chain = text::join(&along, " -> ");
        proof {
            assert(text::texts(along@) =~= circle_names(scripts, circle@));
            assert(order::is_stable_order(run_graph(scripts), order@));
            assert(order::is_found_cycle(run_graph(scripts), order@, circle@));
        }
        return Err(VmError::SystemOrderCycle { chain });
    }
    Ok(order)
}

/// A script system: the position of its plugin, and its own among the systems of the plugin.
#[derive(Debug, Clone, Copy, PartialEq, Eq, Structural)]
pub struct ScriptSlot {
    pub plugin: usize,
    pub system: usize,
}

/// The systems at the given positions of `scripts`.
pub open spec fn slots_of(scripts: Seq<ScriptInfo>, order: Seq<usize>) -> Seq<(int, int)> {
    order.map_values(|i: usize| (scripts[i as int].plugin, scripts[i as int].system))
}

pub open spec fn slot_pairs(slots: Seq<ScriptSlot>) -> Seq<(int, int)> {
    slots.map_values(|s: ScriptSlot| (s.plugin as int, s.system as int))
}

/// The script systems of all plugins in the order in which they run.
pub fn schedule_scripts(plugins: &Vec<LoadedPlugin>) -> (scheduled: Result<
    Vec<ScriptSlot>,
    VmError,
>)
    ensures
        ({
            let scripts = all_scripts(plugins@, plugins@.len());
            match scheduled {
                Ok(slots) => {
                    &&& forall|i: int, b: bool, k: int| !#[trigger] is_unknown(scripts, i, b, k)
                    &&& !order::has_cycle(run_graph(scripts))
                    &&& exists|order: Seq<usize>| #[trigger]
                        order::is_stable_order(run_graph(scripts), order) && order.len()
                            == scripts.len() && slot_pairs(slots@) == slots_of(scripts, order)
                },
                Err(VmError::UnknownSystemRef { system, missing, kind }) => exists|
                    i: int,
                    b: bool,
                    k: int,
                |
                    {
                        &&& #[trigger] is_first_unknown(scripts, i, b, k)
                        &&& system@ == scripts[i].full_name
                        &&& missing@ == (if b {
                            scripts[i].before
                        } else {
                            scripts[i].after
                        })[k]
                        &&& kind@ == (if b {
                            "before"@
                        } else {
                            "after"@
                        })
                    },
                Err(VmError::SystemOrderCycle { chain }) => {
                    &&& forall|i: int, b: bool, k: int| !#[trigger] is_unknown(scripts, i, b, k)
                    &&& order::has_cycle(run_graph(scripts))
                    &&& exists|order: Seq<usize>, circle: Seq<usize>|
                        {
                            &&& #[trigger] order::is_stable_order(run_graph(scripts), order)
                            &&& #[trigger] order::is_found_cycle(
                                run_graph(scripts),
                                order,
                                circle,
                            )
                            &&& chain@ == text::joined(circle_names(scripts, circle), " -> "@)
                        }
                },
                Err(_) => false,
            }
        }),
{
    let metas = script_metas(plugins);
    let ghost scripts = infos(metas@);
    match run_order(&metas) {
        Ok(order) => {
            let mut slots: Vec<ScriptSlot> = Vec::new();
            let mut k: usize = 0;
            while k < order.len()
                invariant
                    k <= order.len(),
                    scripts == infos(metas@),
                    slots.len() == k,
                    forall|j: int| 0 <= j < order.len() ==> #[trigger] order@[j] < metas.len(),
                    forall|j: int|
                        0 <= j < k ==> (#[trigger] slots@[j]).plugin
                            == scripts[order@[j] as int].plugin && slots@[j].system
                            == scripts[order@[j] as int].system,
                decreases order.len() - k,
            {
                let meta = &metas[order[k]];
                assert(scripts[order@[k as int] as int] == meta@);
                slots.push(ScriptSlot { plugin: meta.plugin, system: meta.system });
                k += 1;
            }
            proof {
                assert(slot_pairs(slots@) =~= slots_of(scripts, order@));
                assert(order::is_stable_order(run_graph(scripts), order@));
            }
            Ok(slots)
        },
        Err(e) => Err(e),
    }
}

proof fn earlier_holds(scripts: Seq<ScriptInfo>, to: int, n: nat, from: usize)
    requires
        from < n,
        runs_before(scripts, from as int, to),
    ensures
        earlier(scripts, to, n).contains(from),
    decreases n,
{
    let shorter = earlier(scripts, to, (n - 1) as nat);
    if n - 1 == from {
        assert(earlier(scripts, to, n)[shorter.len() as int] == from);
    } else {
        earlier_holds(scripts, to, (n - 1) as nat, from);
        let k = choose|k: int| 0 <= k < shorter.len() && shorter[k] == from;
        assert(earlier(scripts, to, n)[k] == from);
    }
}

/// Whether `a` stands ahead of `b` in `order`.
pub open spec fn ahead(order: Seq<usize>, a: int, b: int) -> bool {
    exists|x: int, y: int|
        0 <= x < y < order.len() && #[trigger] order[x] == a && #[trigger] order[y] == b
}

/// A system runs ahead of every system that it has to run before.
pub proof fn asked_order_is_kept(scripts: Seq<ScriptInfo>, order: Seq<usize>, from: int, to: int)
    requires
        order::is_stable_order(run_graph(scripts), order),
        order.len() == scripts.len(),
        0 <= from < scripts.len(),
        0 <= to < scripts.len(),
        runs_before(scripts, from, to),
    ensures
        ahead(order, from, to),
{
    order::order_has_no_duplicates(run_graph(scripts), order);
    order::distinct_nodes_fit(order, usize::MAX as nat + 1);
    earlier_holds(scripts, to, scripts.len(), from as usize);
    order::complete_order_respects_dependencies(run_graph(scripts), order, to, from as usize);
}

/// Systems that follow each other in plugins of one name run in the order in which they were
/// declared.
pub proof fn declared_order_is_kept(
    scripts: Seq<ScriptInfo>,
    order: Seq<usize>,
    first: int,
    second: int,
)
    requires
        order::is_stable_order(run_graph(scripts), order),
        order.len() == scripts.len(),
        0 <= first < second < scripts.len(),
        forall|i: int|
            first <= i <= second ==> (#[trigger] scripts[i]).plugin_name
                == scripts[first].plugin_name,
    ensures
        ahead(order, first, second),
    decreases second - first,
{
    assert(runs_before(scripts, second - 1, second));
    asked_order_is_kept(scripts, order, second - 1, second);
    if first < second - 1 {
        declared_order_is_kept(scripts, order, first, second - 1);
        order::order_has_no_duplicates(run_graph(scripts), order);
        let (x, y) = choose|x: int, y: int|
            0 <= x < y < order.len() && #[trigger] order[x] == first && #[trigger] order[y]
                == second - 1;
        let (u, v) = choose|u: int, v: int|
            0 <= u < v < order.len() && #[trigger] order[u] == second - 1 && #[trigger] order[v]
                == second;
        assert(y == u);
        assert(order[x] == first && order[v] == second);
    }
}

/// How many systems the first `n` plugins have.
spec fn systems_of_first(plugins: Seq<LoadedPlugin>, n: nat) -> nat
    decreases n,
{
    if n == 0 {
        0
    } else {
        systems_of_first(plugins, (n - 1) as nat) + plugins[n - 1].config.systems@.len()
    }
}

proof fn fewer_plugins_fewer_systems(plugins: Seq<LoadedPlugin>, n: nat, m: nat)
    requires
        n <= m,
    ensures
        systems_of_first(plugins, n) <= systems_of_first(plugins, m),
    decreases m,
{
    if n < m {
        fewer_plugins_fewer_systems(plugins, n, (m - 1) as nat);
    }
}

proof fn gathered_at(plugins: Seq<LoadedPlugin>, n: nat, p: int, i: int)
    requires
        0 <= p < n,
        0 <= i < plugins[p].config.systems@.len(),
    ensures
        all_scripts(plugins, n).len() == systems_of_first(plugins, n),
        0 <= systems_of_first(plugins, p as nat) + i < all_scripts(plugins, n).len(),
        all_scripts(plugins, n)[systems_of_first(plugins, p as nat) + i] == script_info(
            plugins[p],
            p,
            i,
        ),
    decreases n,
{
    gathered_count(plugins, n);
    gathered_count(plugins, (n - 1) as nat);
    fewer_plugins_fewer_systems(plugins, (p + 1) as nat, n);
    assert(systems_of_first(plugins, (p + 1) as nat) == systems_of_first(plugins, p as nat)
        + plugins[p].config.systems@.len());
    if p < n - 1 {
        gathered_at(plugins, (n - 1) as nat, p, i);
    }
}

proof fn gathered_count(plugins: Seq<LoadedPlugin>, n: nat)
    ensures
        all_scripts(plugins, n).len() == systems_of_first(plugins, n),
    decreases n,
{
    if n > 0 {
        gathered_count(plugins, (n - 1) as nat);
    }
}

proof fn gathered_from(plugins: Seq<LoadedPlugin>, n: nat, x: int) -> (place: (int, int))
    requires
        0 <= x < all_scripts(plugins, n).len(),
    ensures
        0 <= place.0 < n,
        0 <= place.1 < plugins[place.0].config.systems@.len(),
        x == systems_of_first(plugins, place.0 as nat) + place.1,
        all_scripts(plugins, n)[x] == script_info(plugins[place.0], place.0, place.1),
    decreases n,
{
    let shorter = all_scripts(plugins, (n - 1) as nat);
    gathered_count(plugins, n);
    if n == 0 {
        (0, 0)
    } else {
        gathered_count(plugins, (n - 1) as nat);
        if x < shorter.len() {
            gathered_from(plugins, (n - 1) as nat, x)
        } else {
            (n - 1, x - shorter.len())
        }
    }
}

/// Every system of every plugin is scheduled exactly once, with what its declaration says: it
/// belongs to the set of its plugin and to each set that it joins, and to no other; it is known
/// by the name of its plugin and its script; and it asks for what it lists.
pub proof fn every_system_is_known_as_declared(plugins: Seq<LoadedPlugin>, p: int, i: int) -> (x:
    int)
    requires
        0 <= p < plugins.len(),
        0 <= i < plugins[p].config.systems@.len(),
    ensures
        ({
            let scripts = all_scripts(plugins, plugins.len());
            let declared = plugins[p].config.systems@[i];
            &&& 0 <= x < scripts.len()
            &&& scripts[x].plugin == p && scripts[x].system == i
            &&& forall|y: int|
                0 <= y < scripts.len() && (#[trigger] scripts[y]).plugin == p && scripts[y].system
                    == i ==> y == x
            &&& forall|s: Seq<char>| #[trigger]
                scripts[x].sets.contains(s) <==> s == plugins[p].name@ || exists|k: int|
                    0 <= k < declared->in_set@.len() && (#[trigger] declared->in_set@[k])@ == s
            &&& scripts[x].plugin_name == plugins[p].name@
            &&& scripts[x].full_name == plugins[p].name@ + "::"@ + script_stem(declared->path@)
            &&& scripts[x].before.len() == declared->before@.len()
            &&& forall|k: int|
                0 <= k < declared->before@.len() ==> #[trigger] scripts[x].before[k]
                    == declared->before@[k]@
            &&& scripts[x].after.len() == declared->after@.len()
            &&& forall|k: int|
                0 <= k < declared->after@.len() ==> #[trigger] scripts[x].after[k]
                    == declared->after@[k]@
        }),
{
    let scripts = all_scripts(plugins, plugins.len());
    let declared = plugins[p].config.systems@[i];
    let x = systems_of_first(plugins, p as nat) + i;
    gathered_at(plugins, plugins.len(), p, i);
    assert forall|y: int|
        0 <= y < scripts.len() && (#[trigger] scripts[y]).plugin == p && scripts[y].system
            == i implies y == x by {
        let place = gathered_from(plugins, plugins.len(), y);
    }
    let joins = text::texts(declared->in_set@);
    assert forall|s: Seq<char>| #[trigger]
        scripts[x].sets.contains(s) <==> s == plugins[p].name@ || exists|k: int|
            0 <= k < declared->in_set@.len() && (#[trigger] declared->in_set@[k])@ == s by {
        let sets = scripts[x].sets;
        assert(sets == seq![plugins[p].name@] + joins);
        if sets.contains(s) {
            let k = choose|k: int| 0 <= k < sets.len() && sets[k] == s;
            if k > 0 {
                assert(declared->in_set@[k - 1]@ == s);
            }
        }
        if s == plugins[p].name@ {
            assert(sets[0] == s);
        }
        if exists|k: int|
            0 <= k < declared->in_set@.len() && (#[trigger] declared->in_set@[k])@ == s {
            let k = choose|k: int|
                0 <= k < declared->in_set@.len() && (#[trigger] declared->in_set@[k])@ == s;
            assert(sets[k + 1] == s);
        }
    }
    x
}

/// Whatever is scheduled is a system that some plugin declares; systems stand in the order of
/// the plugins and, within a plugin, in the order of its declarations.
pub proof fn nothing_undeclared_is_scheduled(plugins: Seq<LoadedPlugin>, x: int, y: int)
    requires
        0 <= x < y < all_scripts(plugins, plugins.len()).len(),
    ensures
        ({
            let scripts = all_scripts(plugins, plugins.len());
            &&& 0 <= scripts[x].plugin < plugins.len()
            &&& 0 <= scripts[x].system < plugins[scripts[x].plugin].config.systems@.len()
            &&& 0 <= scripts[y].plugin < plugins.len()
            &&& 0 <= scripts[y].system < plugins[scripts[y].plugin].config.systems@.len()
            &&& scripts[x].plugin < scripts[y].plugin || (scripts[x].plugin == scripts[y].plugin
                && scripts[x].system < scripts[y].system)
        }),
{
    let a = gathered_from(plugins, plugins.len(), x);
    let b = gathered_from(plugins, plugins.len(), y);
    if b.0 < a.0 {
        fewer_plugins_fewer_systems(plugins, (b.0 + 1) as nat, a.0 as nat);
        assert(systems_of_first(plugins, (b.0 + 1) as nat) == systems_of_first(plugins, b.0 as nat)
            + plugins[b.0].config.systems@.len());
    }
}

/// Whether slot `a` stands ahead of slot `b` in a run of systems.
pub open spec fn slot_ahead(slots: Seq<(int, int)>, a: (int, int), b: (int, int)) -> bool {
    exists|x: int, y: int|
        0 <= x < y < slots.len() && #[trigger] slots[x] == a && #[trigger] slots[y] == b
}

proof fn ahead_by_slot(
    scripts: Seq<ScriptInfo>,
    order: Seq<usize>,
    slots: Seq<(int, int)>,
    from: int,
    to: int,
)
    requires
        slots == slots_of(scripts, order),
        ahead(order, from, to),
    ensures
        slot_ahead(
            slots,
            (scripts[from].plugin, scripts[from].system),
            (scripts[to].plugin, scripts[to].system),
        ),
{
    let (x, y) = choose|x: int, y: int|
        0 <= x < y < order.len() && #[trigger] order[x] == from && #[trigger] order[y] == to;
    assert(slots[x] == (scripts[from].plugin, scripts[from].system));
    assert(slots[y] == (scripts[to].plugin, scripts[to].system));
}

/// A system that asks to run after a set runs behind every other system that joins that set or
/// whose plugin has that name; one that asks to run before a set runs ahead of each of them.
pub proof fn sets_order_their_members(
    plugins: Seq<LoadedPlugin>,
    order: Seq<usize>,
    slots: Seq<(int, int)>,
    p: int,
    i: int,
    q: int,
    j: int,
    set: Seq<char>,
)
    requires
        order::is_stable_order(run_graph(all_scripts(plugins, plugins.len())), order),
        order.len() == all_scripts(plugins, plugins.len()).len(),
        slots == slots_of(all_scripts(plugins, plugins.len()), order),
        0 <= p < plugins.len(),
        0 <= i < plugins[p].config.systems@.len(),
        0 <= q < plugins.len(),
        0 <= j < plugins[q].config.systems@.len(),
        (p, i) != (q, j),
        plugins[p].name@ == set || exists|k: int|
            0 <= k < plugins[p].config.systems@[i]->in_set@.len() && (
            #[trigger] plugins[p].config.systems@[i]->in_set@[k])@ == set,
    ensures
        (exists|k: int|
            0 <= k < plugins[q].config.systems@[j]->after@.len() && (
            #[trigger] plugins[q].config.systems@[j]->after@[k])@ == set) ==> slot_ahead(
            slots,
            (p, i),
            (q, j),
        ),
        (exists|k: int|
            0 <= k < plugins[q].config.systems@[j]->before@.len() && (
            #[trigger] plugins[q].config.systems@[j]->before@[k])@ == set) ==> slot_ahead(
            slots,
            (q, j),
            (p, i),
        ),
{
    let scripts = all_scripts(plugins, plugins.len());
    let member = every_system_is_known_as_declared(plugins, p, i);
    let asking = every_system_is_known_as_declared(plugins, q, j);
    let declared = plugins[q].config.systems@[j];
    assert(scripts[member].sets.contains(set));
    assert(is_set(scripts, set));
    assert(stands_for(scripts, set, member));
    if exists|k: int| 0 <= k < declared->after@.len() && (#[trigger] declared->after@[k])@ == set {
        let k = choose|k: int|
            0 <= k < declared->after@.len() && (#[trigger] declared->after@[k])@ == set;
        assert(stands_for(scripts, scripts[asking].after[k], member));
        assert(runs_before(scripts, member, asking));
        asked_order_is_kept(scripts, order, member, asking);
        ahead_by_slot(scripts, order, slots, member, asking);
    }
    if exists|k: int| 0 <= k < declared->before@.len() && (#[trigger] declared->before@[k])@ == set {
        let k = choose|k: int|
            0 <= k < declared->before@.len() && (#[trigger] declared->before@[k])@ == set;
        assert(stands_for(scripts, scripts[asking].before[k], member));
        assert(runs_before(scripts, asking, member));
        asked_order_is_kept(scripts, order, asking, member);
        ahead_by_slot(scripts, order, slots, asking, member);
    }
}

/// A name that is neither that of a plugin nor that of a set that a system joins stands for the
/// one system of that full name: a system that asks to run after it runs behind it, one that
/// asks to run before it ahead of it.
pub proof fn full_names_order_single_systems(
    plugins: Seq<LoadedPlugin>,
    order: Seq<usize>,
    slots: Seq<(int, int)>,
    p: int,
    i: int,
    q: int,
    j: int,
    name: Seq<char>,
)
    requires
        order::is_stable_order(run_graph(all_scripts(plugins, plugins.len())), order),
        order.len() == all_scripts(plugins, plugins.len()).len(),
        slots == slots_of(all_scripts(plugins, plugins.len()), order),
        0 <= p < plugins.len(),
        0 <= i < plugins[p].config.systems@.len(),
        0 <= q < plugins.len(),
        0 <= j < plugins[q].config.systems@.len(),
        (p, i) != (q, j),
        name == plugins[p].name@ + "::"@ + script_stem(plugins[p].config.systems@[i]->path@),
        forall|r: int| 0 <= r < plugins.len() ==> (#[trigger] plugins[r]).name@ != name,
        forall|r: int, m: int, k: int|
            0 <= r < plugins.len() && 0 <= m < plugins[r].config.systems@.len() && 0 <= k
                < plugins[r].config.systems@[m]->in_set@.len() ==> (
            #[trigger] plugins[r].config.systems@[m]->in_set@[k])@ != name,
        forall|r: int, m: int|
            0 <= r < plugins.len() && 0 <= m < plugins[r].config.systems@.len() && name
                == plugins[r].name@ + "::"@ + script_stem(
                (#[trigger] plugins[r].config.systems@[m])->path@,
            ) ==> (r, m) == (p, i),
    ensures
        (exists|k: int|
            0 <= k < plugins[q].config.systems@[j]->after@.len() && (
            #[trigger] plugins[q].config.systems@[j]->after@[k])@ == name) ==> slot_ahead(
            slots,
            (p, i),
            (q, j),
        ),
        (exists|k: int|
            0 <= k < plugins[q].config.systems@[j]->before@.len() && (
            #[trigger] plugins[q].config.systems@[j]->before@[k])@ == name) ==> slot_ahead(
            slots,
            (q, j),
            (p, i),
        ),
{
    let scripts = all_scripts(plugins, plugins.len());
    let named = every_system_is_known_as_declared(plugins, p, i);
    let asking = every_system_is_known_as_declared(plugins, q, j);
    let declared = plugins[q].config.systems@[j];
    assert(!is_set(scripts, name)) by {
        if is_set(scripts, name) {
            let y = choose|y: int| 0 <= y < scripts.len() && (#[trigger] scripts[y]).sets.contains(
                name,
            );
            let place = gathered_from(plugins, plugins.len(), y);
            let again = every_system_is_known_as_declared(plugins, place.0, place.1);
            assert(again == y);
        }
    }
    assert forall|y: int| named < y < scripts.len() implies (#[trigger] scripts[y]).full_name
        != name by {
        let place = gathered_from(plugins, plugins.len(), y);
        let again = every_system_is_known_as_declared(plugins, place.0, place.1);
        if scripts[y].full_name == name {
            assert(plugins[place.0].config.systems@[place.1]->path@
                == plugins[place.0].config.systems@[place.1]->path@);
        }
    }
    assert(stands_for(scripts, name, named));
    if exists|k: int| 0 <= k < declared->after@.len() && (#[trigger] declared->after@[k])@ == name {
        let k = choose|k: int|
            0 <= k < declared->after@.len() && (#[trigger] declared->after@[k])@ == name;
        assert(stands_for(scripts, scripts[asking].after[k], named));
        assert(runs_before(scripts, named, asking));
        asked_order_is_kept(scripts, order, named, asking);
        ahead_by_slot(scripts, order, slots, named, asking);
    }
    if exists|k: int|
        0 <= k < declared->before@.len() && (#[trigger] declared->before@[k])@ == name {
        let k = choose|k: int|
            0 <= k < declared->before@.len() && (#[trigger] declared->before@[k])@ == name;
        assert(stands_for(scripts, scripts[asking].before[k], named));
        assert(runs_before(scripts, asking, named));
        asked_order_is_kept(scripts, order, asking, named);
        ahead_by_slot(scripts, order, slots, asking, named);
    }
}

/// The systems of one plugin run in the order in which the plugin declares them, and every
/// declared system runs exactly once.
pub proof fn plugins_keep_their_own_order(
    plugins: Seq<LoadedPlugin>,
    order: Seq<usize>,
    slots: Seq<(int, int)>,
    p: int,
    i: int,
    j: int,
)
    requires
        order::is_stable_order(run_graph(all_scripts(plugins, plugins.len())), order),
        order.len() == all_scripts(plugins, plugins.len()).len(),
        slots == slots_of(all_scripts(plugins, plugins.len()), order),
        0 <= p < plugins.len(),
        0 <= i < plugins[p].config.systems@.len(),
    ensures
        i < j < plugins[p].config.systems@.len() ==> slot_ahead(slots, (p, i), (p, j)),
        slots.contains((p, i)),
        slots.no_duplicates(),
{
    let scripts = all_scripts(plugins, plugins.len());
    let first = every_system_is_known_as_declared(plugins, p, i);
    order::order_has_no_duplicates(run_graph(scripts), order);
    order::complete_order_holds_every_node(run_graph(scripts), order, first);
    let at = choose|at: int| 0 <= at < order.len() && #[trigger] order[at] == first;
    assert(slots[at] == (p, i));
    assert forall|x: int, y: int| 0 <= x < y < slots.len() implies slots[x] != slots[y] by {
        assert(order::ready(run_graph(scripts), order.take(x), order[x] as int));
        assert(order::ready(run_graph(scripts), order.take(y), order[y] as int));
        let a = order[x] as int;
        let b = order[y] as int;
        let place = gathered_from(plugins, plugins.len(), a);
        let known = every_system_is_known_as_declared(plugins, place.0, place.1);
        if slots[x] == slots[y] {
            assert(scripts[b].plugin == place.0 && scripts[b].system == place.1);
            assert(a == known && b == known);
        }
    }
    if i < j < plugins[p].config.systems@.len() {
        let second = every_system_is_known_as_declared(plugins, p, j);
        gathered_at(plugins, plugins.len(), p, i);
        gathered_at(plugins, plugins.len(), p, j);
        let base = systems_of_first(plugins, p as nat);
        assert(first == base + i);
        assert(second == base + j);
        assert forall|x: int| first <= x <= second implies (#[trigger] scripts[x]).plugin_name
            == scripts[first].plugin_name by {
            gathered_at(plugins, plugins.len(), p, x - base);
        }
        declared_order_is_kept(scripts, order, first, second);
        ahead_by_slot(scripts, order, slots, first, second);
    }
}

/// Whether `name` is one by which system `i` of plugin `p` is declared: that of the plugin, that of
/// a set it joins, or its full name.
pub open spec fn declared_as(
    plugins: Seq<LoadedPlugin>,
    p: int,
    i: int,
    name: Seq<char>,
) -> bool {
    &&& 0 <= p < plugins.len()
    &&& 0 <= i < plugins[p].config.systems@.len()
    &&& {
        let declared = plugins[p].config.systems@[i];
        ||| plugins[p].name@ == name
        ||| exists|k: int|
            0 <= k < declared->in_set@.len() && (#[trigger] declared->in_set@[k])@ == name
        ||| plugins[p].name@ + "::"@ + script_stem(declared->path@) == name
    }
}

/// A name in `before` or `after` is accepted exactly if a plugin with a system has that name, a
/// system joins a set of that name, or a system is known by that full name.
pub proof fn accepted_names_are_declared(plugins: Seq<LoadedPlugin>, name: Seq<char>)
    ensures
        resolves(all_scripts(plugins, plugins.len()), name) <==> exists|p: int, i: int| #[trigger]
            declared_as(plugins, p, i, name),
{
    let scripts = all_scripts(plugins, plugins.len());
    if resolves(scripts, name) {
        let x = choose|x: int| #[trigger] stands_for(scripts, name, x);
        let place = gathered_from(plugins, plugins.len(), x);
        let known = every_system_is_known_as_declared(plugins, place.0, place.1);
        assert(known == x);
        assert(declared_as(plugins, place.0, place.1, name));
    }
    if exists|p: int, i: int| #[trigger] declared_as(plugins, p, i, name) {
        let (p, i) = choose|p: int, i: int| #[trigger] declared_as(plugins, p, i, name);
        let x = every_system_is_known_as_declared(plugins, p, i);
        if is_set(scripts, name) {
            let y = choose|y: int|
                0 <= y < scripts.len() && (#[trigger] scripts[y]).sets.contains(name);
            assert(stands_for(scripts, name, y));
        } else {
            assert(!scripts[x].sets.contains(name));
            let last = last_of_name(scripts, name, x);
            assert(stands_for(scripts, name, last));
        }
    }
}

proof fn last_of_name(scripts: Seq<ScriptInfo>, name: Seq<char>, x: int) -> (last: int)
    requires
        0 <= x < scripts.len(),
        scripts[x].full_name == name,
    ensures
        x <= last < scripts.len(),
        scripts[last].full_name == name,
        forall|j: int| last < j < scripts.len() ==> (#[trigger] scripts[j]).full_name != name,
    decreases scripts.len() - x,
{
    if exists|j: int| x < j < scripts.len() && (#[trigger] scripts[j]).full_name == name {
        let j = choose|j: int| x < j < scripts.len() && (#[trigger] scripts[j]).full_name == name;
        last_of_name(scripts, name, j)
    } else {
        x
    }
}

proof fn earlier_holds_only(scripts: Seq<ScriptInfo>, to: int, n: nat, k: int)
    requires
        0 <= k < earlier(scripts, to, n).len(),
        n <= usize::MAX as nat + 1,
    ensures
        earlier(scripts, to, n)[k] < n,
        runs_before(scripts, earlier(scripts, to, n)[k] as int, to),
    decreases n,
{
    let shorter = earlier(scripts, to, (n - 1) as nat);
    if k < shorter.len() {
        earlier_holds_only(scripts, to, (n - 1) as nat, k);
    }
}

/// Nothing but the declarations orders two systems: one has to wait for the other only if they
/// follow each other in plugins of one name, or if one of them lists a name by which the other is
/// known: its plugin's, that of a set it joins, or its own.
pub proof fn only_declarations_order_systems(plugins: Seq<LoadedPlugin>, from: int, to: int)
    requires
        all_scripts(plugins, plugins.len()).len() <= usize::MAX as nat + 1,
        0 <= from < all_scripts(plugins, plugins.len()).len(),
        0 <= to < all_scripts(plugins, plugins.len()).len(),
        run_graph(all_scripts(plugins, plugins.len()))[to].contains(from as usize),
    ensures
        ({
            let scripts = all_scripts(plugins, plugins.len());
            &&& from != to
            &&& {
                ||| to == from + 1 && plugins[scripts[from].plugin].name@
                    == plugins[scripts[to].plugin].name@
                ||| exists|k: int|
                    0 <= k < scripts[from].before.len() && (scripts[to].sets.contains(
                        #[trigger] scripts[from].before[k],
                    ) || scripts[to].full_name == scripts[from].before[k])
                ||| exists|k: int|
                    0 <= k < scripts[to].after.len() && (scripts[from].sets.contains(
                        #[trigger] scripts[to].after[k],
                    ) || scripts[from].full_name == scripts[to].after[k])
            }
        }),
{
    let scripts = all_scripts(plugins, plugins.len());
    let list = earlier(scripts, to, scripts.len());
    assert(run_graph(scripts)[to] == list);
    let k = choose|k: int| 0 <= k < list.len() && list[k] == from as usize;
    earlier_holds_only(scripts, to, scripts.len(), k);
    assert(list[k] == from);
    let a = gathered_from(plugins, plugins.len(), from);
    let b = gathered_from(plugins, plugins.len(), to);
    if one_stands_for(scripts, scripts[from].before, to) {
        let m = choose|m: int|
            0 <= m < scripts[from].before.len() && stands_for(
                scripts,
                #[trigger] scripts[from].before[m],
                to,
            );
        assert(scripts[to].sets.contains(scripts[from].before[m]) || scripts[to].full_name
            == scripts[from].before[m]);
    } else if one_stands_for(scripts, scripts[to].after, from) {
        let m = choose|m: int|
            0 <= m < scripts[to].after.len() && stands_for(
                scripts,
                #[trigger] scripts[to].after[m],
                from,
            );
        assert(scripts[from].sets.contains(scripts[to].after[m]) || scripts[from].full_name
            == scripts[to].after[m]);
    }
}

/// Where no system asks for anything, systems run in the order of the plugins and of their
/// declarations.
pub proof fn unasked_systems_run_in_plugin_order(
    plugins: Seq<LoadedPlugin>,
    order: Seq<usize>,
    slots: Seq<(int, int)>,
    x: int,
    y: int,
)
    requires
        order::is_stable_order(run_graph(all_scripts(plugins, plugins.len())), order),
        order.len() == all_scripts(plugins, plugins.len()).len(),
        slots == slots_of(all_scripts(plugins, plugins.len()), order),
        forall|p: int, i: int|
            0 <= p < plugins.len() && 0 <= i < plugins[p].config.systems@.len() ==> (
            #[trigger] plugins[p].config.systems@[i])->before@.len() == 0
                && plugins[p].config.systems@[i]->after@.len() == 0,
        0 <= x < y < slots.len(),
    ensures
        slots[x].0 < slots[y].0 || (slots[x].0 == slots[y].0 && slots[x].1 < slots[y].1),
{
    let scripts = all_scripts(plugins, plugins.len());
    let graph = run_graph(scripts);
    order::order_has_no_duplicates(graph, order);
    order::distinct_nodes_fit(order, usize::MAX as nat + 1);
    latest_overtaken(plugins, order, x, y);
    assert(order::ready(graph, order.take(x), order[x] as int));
    assert(order::ready(graph, order.take(y), order[y] as int));
    nothing_undeclared_is_scheduled(plugins, order[x] as int, order[y] as int);
}

proof fn latest_overtaken(plugins: Seq<LoadedPlugin>, order: Seq<usize>, x: int, y: int)
    requires
        order::is_stable_order(run_graph(all_scripts(plugins, plugins.len())), order),
        order.len() == all_scripts(plugins, plugins.len()).len(),
        forall|p: int, i: int|
            0 <= p < plugins.len() && 0 <= i < plugins[p].config.systems@.len() ==> (
            #[trigger] plugins[p].config.systems@[i])->before@.len() == 0
                && plugins[p].config.systems@[i]->after@.len() == 0,
        0 <= x < y < order.len(),
    ensures
        order[x] < order[y],
    decreases y - x,
{
    let scripts = all_scripts(plugins, plugins.len());
    let graph = run_graph(scripts);
    order::order_has_no_duplicates(graph, order);
    order::distinct_nodes_fit(order, usize::MAX as nat + 1);
    if order[y] < order[x] {
        order::overtaking_has_a_reason(graph, order, x, y);
        let z = choose|z: int| x <= z < y && graph[order[y] as int].contains(#[trigger] order[z]);
        assert(order::ready(graph, order.take(z), order[z] as int));
        assert(order::ready(graph, order.take(y), order[y] as int));
        let from = order[z] as int;
        let to = order[y] as int;
        let a = gathered_from(plugins, plugins.len(), from);
        let b = gathered_from(plugins, plugins.len(), to);
        assert(plugins[a.0].config.systems@[a.1]->before@.len() == 0);
        assert(plugins[b.0].config.systems@[b.1]->after@.len() == 0);
        only_declarations_order_systems(plugins, from, to);
        assert(to == from + 1);
        if z > x {
            latest_overtaken(plugins, order, x, z);
        }
    }
}

/// In a schedule a system that asks to run after a set runs behind every other system that joins
/// that set, or whose plugin has that name; one that asks to run before it runs ahead of them.
pub proof fn schedules_keep_what_sets_ask_for(
    plugins: &Vec<LoadedPlugin>,
    slots: Vec<ScriptSlot>,
    p: int,
    i: int,
    q: int,
    j: int,
    set: Seq<char>,
)
    requires
        call_ensures(schedule_scripts, (plugins,), Ok::<Vec<ScriptSlot>, VmError>(slots)),
        0 <= p < plugins@.len(),
        0 <= i < plugins@[p].config.systems@.len(),
        0 <= q < plugins@.len(),
        0 <= j < plugins@[q].config.systems@.len(),
        (p, i) != (q, j),
        plugins@[p].name@ == set || exists|k: int|
            0 <= k < plugins@[p].config.systems@[i]->in_set@.len() && (
            #[trigger] plugins@[p].config.systems@[i]->in_set@[k])@ == set,
    ensures
        (exists|k: int|
            0 <= k < plugins@[q].config.systems@[j]->after@.len() && (
            #[trigger] plugins@[q].config.systems@[j]->after@[k])@ == set) ==> exists|
            x: int,
            y: int,
        |
            0 <= x < y < slots@.len() && #[trigger] slots@[x] == slot_at(p, i)
                && #[trigger] slots@[y] == slot_at(q, j),
        (exists|k: int|
            0 <= k < plugins@[q].config.systems@[j]->before@.len() && (
            #[trigger] plugins@[q].config.systems@[j]->before@[k])@ == set) ==> exists|
            x: int,
            y: int,
        |
            0 <= x < y < slots@.len() && #[trigger] slots@[x] == slot_at(q, j)
                && #[trigger] slots@[y] == slot_at(p, i),
{
    let scripts = all_scripts(plugins@, plugins@.len());
    let order = choose|order: Seq<usize>| #[trigger]
        order::is_stable_order(run_graph(scripts), order) && order.len() == scripts.len()
            && slot_pairs(slots@) == slots_of(scripts, order);
    let pairs = slot_pairs(slots@);
    sets_order_their_members(plugins@, order, pairs, p, i, q, j, set);
    if slot_ahead(pairs, (p, i), (q, j)) {
        slots_stand_ahead(slots@, (p, i), (q, j));
    }
    if slot_ahead(pairs, (q, j), (p, i)) {
        slots_stand_ahead(slots@, (q, j), (p, i));
    }
}

/// The slot of system `i` of plugin `p`.
pub open spec fn slot_at(p: int, i: int) -> ScriptSlot {
    ScriptSlot { plugin: p as usize, system: i as usize }
}

proof fn slots_stand_ahead(slots: Seq<ScriptSlot>, a: (int, int), b: (int, int))
    requires
        slot_ahead(slot_pairs(slots), a, b),
    ensures
        exists|x: int, y: int|
            0 <= x < y < slots.len() && #[trigger] slots[x] == slot_at(a.0, a.1)
                && #[trigger] slots[y] == slot_at(b.0, b.1),
{
    let pairs = slot_pairs(slots);
    let (x, y) = choose|x: int, y: int|
        0 <= x < y < pairs.len() && #[trigger] pairs[x] == a && #[trigger] pairs[y] == b;
    assert(pairs[x] == (slots[x].plugin as int, slots[x].system as int));
    assert(pairs[y] == (slots[y].plugin as int, slots[y].system as int));
    assert(slots[x] == slot_at(a.0, a.1));
    assert(slots[y] == slot_at(b.0, b.1));
}

/// A schedule holds every declared system exactly once, and those of one plugin in the order in
/// which it declares them.
pub proof fn schedules_hold_every_system_once(
    plugins: &Vec<LoadedPlugin>,
    slots: Vec<ScriptSlot>,
    p: int,
    i: int,
    j: int,
)
    requires
        call_ensures(schedule_scripts, (plugins,), Ok::<Vec<ScriptSlot>, VmError>(slots)),
        0 <= p < plugins@.len(),
        0 <= i < plugins@[p].config.systems@.len(),
    ensures
        slots@.contains(slot_at(p, i)),
        slots@.no_duplicates(),
        i < j < plugins@[p].config.systems@.len() ==> exists|x: int, y: int|
            0 <= x < y < slots@.len() && #[trigger] slots@[x] == slot_at(p, i)
                && #[trigger] slots@[y] == slot_at(p, j),
{
    let scripts = all_scripts(plugins@, plugins@.len());
    let order = choose|order: Seq<usize>| #[trigger]
        order::is_stable_order(run_graph(scripts), order) && order.len() == scripts.len()
            && slot_pairs(slots@) == slots_of(scripts, order);
    let pairs = slot_pairs(slots@);
    plugins_keep_their_own_order(plugins@, order, pairs, p, i, j);
    let x = choose|x: int| 0 <= x < pairs.len() && pairs[x] == (p, i);
    assert(slots@[x] == slot_at(p, i));
    assert forall|a: int, b: int| 0 <= a < slots@.len() && 0 <= b < slots@.len() && a
        != b implies slots@[a] != slots@[b] by {
        assert(pairs[a] != pairs[b]);
    }
    if i < j < plugins@[p].config.systems@.len() {
        slots_stand_ahead(slots@, (p, i), (p, j));
    }
}

/// A schedule is refused over a name exactly if some system lists one that nothing is declared as;
/// the refusal tells the system and the name, and which list it stands in.
pub proof fn schedules_are_refused_over_undeclared_names(
    plugins: &Vec<LoadedPlugin>,
    scheduled: Result<Vec<ScriptSlot>, VmError>,
    q: int,
    j: int,
    name: Seq<char>,
)
    requires
        call_ensures(schedule_scripts, (plugins,), scheduled),
        0 <= q < plugins@.len(),
        0 <= j < plugins@[q].config.systems@.len(),
        (exists|k: int|
            0 <= k < plugins@[q].config.systems@[j]->after@.len() && (
            #[trigger] plugins@[q].config.systems@[j]->after@[k])@ == name) || exists|k: int|
            0 <= k < plugins@[q].config.systems@[j]->before@.len() && (
            #[trigger] plugins@[q].config.systems@[j]->before@[k])@ == name,
    ensures
        (forall|p: int, i: int| !#[trigger] declared_as(plugins@, p, i, name)) ==> scheduled is Err
            && scheduled->Err_0 is UnknownSystemRef,
        scheduled is Err && scheduled->Err_0 is UnknownSystemRef ==> forall|p: int, i: int|
            !#[trigger] declared_as(
                plugins@,
                p,
                i,
                scheduled->Err_0->UnknownSystemRef_missing@,
            ),
        scheduled is Err && scheduled->Err_0 is UnknownSystemRef ==> {
            ||| scheduled->Err_0->UnknownSystemRef_kind@ == "before"@
            ||| scheduled->Err_0->UnknownSystemRef_kind@ == "after"@
        },
{
    let scripts = all_scripts(plugins@, plugins@.len());
    accepted_names_are_declared(plugins@, name);
    if forall|p: int, i: int| !#[trigger] declared_as(plugins@, p, i, name) {
        assert(!resolves(scripts, name));
        let x = every_system_is_known_as_declared(plugins@, q, j);
        let declared = plugins@[q].config.systems@[j];
        if exists|k: int| 0 <= k < declared->after@.len() && (#[trigger] declared->after@[k])@ == name {
            let k = choose|k: int|
                0 <= k < declared->after@.len() && (#[trigger] declared->after@[k])@ == name;
            assert(scripts[x].after[k] == name);
            assert(is_unknown(scripts, x, false, k));
        } else {
            let k = choose|k: int|
                0 <= k < declared->before@.len() && (#[trigger] declared->before@[k])@ == name;
            assert(scripts[x].before[k] == name);
            assert(is_unknown(scripts, x, true, k));
        }
    }
    if scheduled is Err && scheduled->Err_0 is UnknownSystemRef {
        let missing = scheduled->Err_0->UnknownSystemRef_missing@;
        accepted_names_are_declared(plugins@, missing);
    }
}

/// Whether every name in a list stands for some system.
pub open spec fn all_resolve(scripts: Seq<ScriptInfo>, names: Seq<Seq<char>>) -> bool {
    forall|k: int| 0 <= k < names.len() ==> resolves(scripts, #[trigger] names[k])
}

/// A refusal over a name tells the first there is: of the first system that lists one, in `before`
/// if it is there and else in `after`, and in that list the first.
pub proof fn the_first_undeclared_name_is_told(
    plugins: &Vec<LoadedPlugin>,
    scheduled: Result<Vec<ScriptSlot>, VmError>,
) -> (found: (int, int))
    requires
        call_ensures(schedule_scripts, (plugins,), scheduled),
        scheduled is Err,
        scheduled->Err_0 is UnknownSystemRef,
    ensures
        ({
            let (i, k) = found;
            let scripts = all_scripts(plugins@, plugins@.len());
            let kind = scheduled->Err_0->UnknownSystemRef_kind@;
            let list = if kind == "before"@ {
                scripts[i].before
            } else {
                scripts[i].after
            };
            &&& 0 <= i < scripts.len()
            &&& 0 <= k < list.len()
            &&& kind == "before"@ || kind == "after"@
            &&& scheduled->Err_0->UnknownSystemRef_system@ == scripts[i].full_name
            &&& scheduled->Err_0->UnknownSystemRef_missing@ == list[k]
            &&& !resolves(scripts, list[k])
            &&& all_resolve(scripts, list.take(k))
            &&& kind == "after"@ ==> all_resolve(scripts, scripts[i].before)
            &&& forall|j: int|
                0 <= j < i ==> all_resolve(scripts, (#[trigger] scripts[j]).before) && all_resolve(
                    scripts,
                    scripts[j].after,
                )
        }),
{
    reveal_strlit("before");
    reveal_strlit("after");
    let scripts = all_scripts(plugins@, plugins@.len());
    let error = scheduled->Err_0;
    let (i, b, k) = choose|i: int, b: bool, k: int|
        {
            &&& #[trigger] is_first_unknown(scripts, i, b, k)
            &&& error->UnknownSystemRef_system@ == scripts[i].full_name
            &&& error->UnknownSystemRef_missing@ == (if b {
                scripts[i].before
            } else {
                scripts[i].after
            })[k]
            &&& error->UnknownSystemRef_kind@ == (if b {
                "before"@
            } else {
                "after"@
            })
        };
    assert("before"@.len() == 6 && "after"@.len() == 5);
    let list = if b {
        scripts[i].before
    } else {
        scripts[i].after
    };
    assert(is_unknown(scripts, i, b, k));
    assert forall|m: int| 0 <= m < list.take(k).len() implies resolves(
        scripts,
        #[trigger] list.take(k)[m],
    ) by {
        assert(!is_unknown(scripts, i, b, m));
    }
    if !b {
        assert forall|m: int| 0 <= m < scripts[i].before.len() implies resolves(
            scripts,
            #[trigger] scripts[i].before[m],
        ) by {
            assert(!is_unknown(scripts, i, true, m));
        }
    }
    assert forall|j: int| 0 <= j < i implies all_resolve(scripts, (#[trigger] scripts[j]).before)
        && all_resolve(scripts, scripts[j].after) by {
        assert forall|m: int| 0 <= m < scripts[j].before.len() implies resolves(
            scripts,
            #[trigger] scripts[j].before[m],
        ) by {
            assert(!is_unknown(scripts, j, true, m));
        }
        assert forall|m: int| 0 <= m < scripts[j].after.len() implies resolves(
            scripts,
            #[trigger] scripts[j].after[m],
        ) by {
            assert(!is_unknown(scripts, j, false, m));
        }
    }
    (i, k)
}

/// A refusal over a circle tells the full names around it, with arrows between them: it begins and
/// ends with the same system, and each system in it has to run behind the next.
pub proof fn circles_of_systems_are_told(
    plugins: &Vec<LoadedPlugin>,
    scheduled: Result<Vec<ScriptSlot>, VmError>,
) -> (circle: Seq<usize>)
    requires
        call_ensures(schedule_scripts, (plugins,), scheduled),
        scheduled is Err,
        scheduled->Err_0 is SystemOrderCycle,
    ensures
        ({
            let scripts = all_scripts(plugins@, plugins@.len());
            &&& circle.len() >= 2
            &&& circle[0] == circle.last()
            &&& forall|i: int| 0 <= i < circle.len() ==> #[trigger] circle[i] < scripts.len()
            &&& forall|i: int|
                0 <= i < circle.len() - 1 ==> run_graph(scripts)[#[trigger] circle[i] as int].contains(
                    circle[i + 1],
                )
            &&& scheduled->Err_0->SystemOrderCycle_chain@ == text::joined(
                Seq::new(circle.len(), |i: int| scripts[circle[i] as int].full_name),
                " -> "@,
            )
        }),
{
    let scripts = all_scripts(plugins@, plugins@.len());
    let graph = run_graph(scripts);
    let chain = scheduled->Err_0->SystemOrderCycle_chain@;
    let (order, circle) = choose|order: Seq<usize>, circle: Seq<usize>|
        {
            &&& #[trigger] order::is_stable_order(graph, order)
            &&& #[trigger] order::is_found_cycle(graph, order, circle)
            &&& chain == text::joined(circle_names(scripts, circle), " -> "@)
        };
    order::found_circles_close(graph, order, circle, 0, 0);
    assert forall|i: int| 0 <= i < circle.len() implies #[trigger] circle[i] < scripts.len() by {
        order::found_circles_close(graph, order, circle, i, i);
    }
    assert forall|i: int| 0 <= i < circle.len() - 1 implies graph[
        #[trigger] circle[i] as int
    ].contains(circle[i + 1]) by {
        order::found_circles_close(graph, order, circle, i, i);
    }
    assert(circle_names(scripts, circle) =~= Seq::new(
        circle.len(),
        |i: int| scripts[circle[i] as int].full_name,
    ));
    circle
}

} // verus!
