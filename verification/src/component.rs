//! Component registry: typed components of the engine and dynamic components of the content, by
//! name.
pub mod mesh;
pub mod picking;
pub mod scene;
pub mod typed;

use vstd::prelude::*;
use vstd::string::*;

use crate::dict;
use crate::dict::Dict;
use crate::order;
use crate::text;
use crate::value::{Json, Value};

verus! {

/// Why a component could not be registered.
#[derive(Debug, Clone, PartialEq, Eq)]
pub enum RegistryError {
    /// A typed component has the name already.
    DynamicShadowsTyped { name: String },
    /// A typed component requires a name that no typed component has.
    UnknownRequired { component: String, required: String },
    /// Typed components require each other in a circle.
    RequiresCycle { chain: String },
}

impl RegistryError {
    /// The message that describes the error.
    pub open spec fn text(self) -> Seq<char> {
        match self {
            RegistryError::DynamicShadowsTyped { name } => "component name `"@ + name@ + "` is already registered as a typed component and cannot be re-declared as dynamic"@,
            RegistryError::UnknownRequired { component, required } => "typed component `"@ + component@ + "` declares require on `"@ + required@ + "` which is not a registered typed component"@,
            RegistryError::RequiresCycle { chain } => "required-component cycle detected: "@ + chain@,
        }
    }

    /// The message that describes the error.
    #[must_use]
    pub fn message(&self) -> (written: String)
        ensures
            written@ == self.text(),
    {
        match self {
            RegistryError::DynamicShadowsTyped { name } => text::in_between("component name `", name.as_str(), "` is already registered as a typed component and cannot be re-declared as dynamic"),
            RegistryError::UnknownRequired { component, required } => {
                let mut whole = text::in_between("typed component `", component.as_str(), "` declares require on `");
                whole.append(required.as_str());
                whole.append("` which is not a registered typed component");
                whole
            },
            RegistryError::RequiresCycle { chain } => text::followed_by("required-component cycle detected: ", chain.as_str()),
        }
    }
}

/// A typed component: the id the world knows it by, and the typed components that are added with
/// it.
pub struct TypedComponent {
    pub id: usize,
    pub requires: Vec<String>,
}

/// A dynamic component: the id the world knows it by, and the value a new one starts from.
pub struct DynComponent {
    pub id: usize,
    pub default: Value,
}

/// The content of a [`TypedComponent`].
pub struct TypedInfo {
    pub id: usize,
    pub requires: Seq<Seq<char>>,
}

/// The content of a [`DynComponent`].
pub struct DynInfo {
    pub id: usize,
    pub default: Json,
}

impl View for TypedComponent {
    type V = TypedInfo;

    open spec fn view(&self) -> TypedInfo {
        TypedInfo { id: self.id, requires: text::texts(self.requires@) }
    }
}

impl View for DynComponent {
    type V = DynInfo;

    open spec fn view(&self) -> DynInfo {
        DynInfo { id: self.id, default: self.default@ }
    }
}

/// Which layer a component name belongs to.
pub enum ComponentKind<'a> {
    /// A typed component of the engine.
    Typed(&'a TypedComponent),
    /// A dynamic component of the content.
    Dynamic(&'a DynComponent),
}

/// The components that a world knows by name.
pub struct ComponentRegistry {
    typed: Dict<TypedComponent>,
    dynamic: Dict<DynComponent>,
}

/// The content of a [`ComponentRegistry`].
#[verifier::ext_equal]
pub struct Components {
    pub typed: Map<Seq<char>, TypedInfo>,
    pub dynamic: Map<Seq<char>, DynInfo>,
}

impl View for ComponentRegistry {
    type V = Components;

    closed spec fn view(&self) -> Components {
        Components {
            typed: self.typed@.map_values(|t: TypedComponent| t@),
            dynamic: self.dynamic@.map_values(|d: DynComponent| d@),
        }
    }
}

impl Components {
    /// Whether there are only finitely many components, as in every registry.
    pub open spec fn has_finitely_many(self) -> bool {
        self.typed.dom().finite() && self.dynamic.dom().finite()
    }

    /// The names of the typed components, in order.
    pub open spec fn typed_names(self) -> Seq<Seq<char>> {
        dict::ascending_keys(self.typed)
    }

    /// What the typed component at position `i` requires.
    pub open spec fn required_at(self, i: int) -> Seq<Seq<char>> {
        self.typed[self.typed_names()[i]].requires
    }

    /// For every typed component the positions of those it requires.
    pub open spec fn requires_graph(self) -> Seq<Seq<usize>> {
        let names = self.typed_names();
        Seq::new(
            names.len(),
            |i: int| self.required_at(i).map_values(|r: Seq<char>| text::place_of(names, r) as usize),
        )
    }

    /// Whether the typed component at position `i` requires, in place `k`, a name that no typed
    /// component has.
    pub open spec fn is_unknown(self, i: int, k: int) -> bool {
        &&& 0 <= i < self.typed_names().len()
        &&& 0 <= k < self.required_at(i).len()
        &&& !self.typed.contains_key(self.required_at(i)[k])
    }

    /// Whether this is the first such requirement.
    pub open spec fn is_first_unknown(self, i: int, k: int) -> bool {
        &&& self.is_unknown(i, k)
        &&& forall|a: int, b: int| #[trigger]
            self.is_unknown(a, b) ==> a > i || (a == i && b >= k)
    }

    /// The names along a trail of positions.
    pub open spec fn trail_names(self, trail: Seq<usize>) -> Seq<Seq<char>> {
        trail.map_values(|i: usize| self.typed_names()[i as int])
    }
}

impl ComponentRegistry {
    /// A registry without components.
    pub fn new() -> (registry: Self)
        ensures
            registry@.typed == Map::<Seq<char>, TypedInfo>::empty(),
            registry@.dynamic == Map::<Seq<char>, DynInfo>::empty(),
    {
        let registry = ComponentRegistry { typed: Dict::new(), dynamic: Dict::new() };
        assert(registry@.typed =~= Map::<Seq<char>, TypedInfo>::empty());
        assert(registry@.dynamic =~= Map::<Seq<char>, DynInfo>::empty());
        registry
    }

    /// Registers a typed component that requires nothing, in place of any typed one of this name.
    pub fn register_typed(&mut self, name: &str, id: usize)
        ensures
            final(self)@.typed == old(self)@.typed.insert(
                name@,
                TypedInfo { id, requires: Seq::empty() },
            ),
            final(self)@.dynamic == old(self)@.dynamic,
    {
        let typed = TypedComponent { id, requires: Vec::new() };
        assert(typed@.requires =~= Seq::<Seq<char>>::empty());
        self.typed.insert(name.to_owned(), typed);
        assert(self@.typed =~= old(self)@.typed.insert(
            name@,
            TypedInfo { id, requires: Seq::empty() },
        ));
    }

    /// Lets the typed component `name`, if there is one, require `target` as well.
    pub fn require(&mut self, name: &str, target: &str)
        ensures
            final(self)@.dynamic == old(self)@.dynamic,
            final(self)@.typed == (if old(self)@.typed.contains_key(name@) {
                old(self)@.typed.insert(
                    name@,
                    TypedInfo {
                        id: old(self)@.typed[name@].id,
                        requires: old(self)@.typed[name@].requires.push(target@),
                    },
                )
            } else {
                old(self)@.typed
            }),
    {
        match self.typed.remove(name) {
            Some(typed) => {
                let mut typed = typed;
                let ghost before = typed@;
                typed.requires.push(target.to_owned());
                assert(typed@.requires =~= before.requires.push(target@));
                self.typed.insert(name.to_owned(), typed);
                assert(self@.typed =~= old(self)@.typed.insert(name@, typed@));
            },
            None => {
                assert(self@.typed =~= old(self)@.typed);
            },
        }
    }

    /// Registers a dynamic component, unless a typed one has the name.
    pub fn register_dynamic(&mut self, name: &str, id: usize, default: Value) -> (done: Result<
        (),
        RegistryError,
    >)
        ensures
            final(self)@.typed == old(self)@.typed,
            match done {
                Ok(()) => !old(self)@.typed.contains_key(name@) && final(self)@.dynamic == old(
                    self,
                )@.dynamic.insert(name@, DynInfo { id, default: default@ }),
                Err(e) => old(self)@.typed.contains_key(name@) && final(self)@ == old(self)@
                    && e is DynamicShadowsTyped && e->DynamicShadowsTyped_name@ == name@,
            },
    {
        if self.typed.contains_key(name) {
            return Err(RegistryError::DynamicShadowsTyped { name: name.to_owned() });
        }
        let component = DynComponent { id, default };
        self.dynamic.insert(name.to_owned(), component);
        assert(self@.dynamic =~= old(self)@.dynamic.insert(name@, DynInfo { id, default: default@ }));
        Ok(())
    }

    /// The layer of a name. A typed component goes first.
    #[must_use]
    pub fn resolve(&self, name: &str) -> (kind: Option<ComponentKind<'_>>)
        ensures
            match kind {
                Some(ComponentKind::Typed(t)) => self@.typed.contains_key(name@)
                    && self@.typed[name@] == t@,
                Some(ComponentKind::Dynamic(d)) => !self@.typed.contains_key(name@)
                    && self@.dynamic.contains_key(name@) && self@.dynamic[name@] == d@,
                None => !self@.typed.contains_key(name@) && !self@.dynamic.contains_key(name@),
            },
    {
        match self.typed.get(name) {
            Some(typed) => Some(ComponentKind::Typed(typed)),
            None => match self.dynamic.get(name) {
                Some(component) => Some(ComponentKind::Dynamic(component)),
                None => None,
            },
        }
    }

    /// The typed component of this name.
    #[must_use]
    pub fn typed(&self, name: &str) -> (found: Option<&TypedComponent>)
        ensures
            match found {
                Some(t) => self@.typed.contains_key(name@) && self@.typed[name@] == t@,
                None => !self@.typed.contains_key(name@),
            },
    {
        self.typed.get(name)
    }

    /// The dynamic component of this name.
    #[must_use]
    pub fn dynamic(&self, name: &str) -> (found: Option<&DynComponent>)
        ensures
            match found {
                Some(d) => self@.dynamic.contains_key(name@) && self@.dynamic[name@] == d@,
                None => !self@.dynamic.contains_key(name@),
            },
    {
        self.dynamic.get(name)
    }

    /// Every name: those of the typed components in order, then those of the dynamic ones.
    pub fn component_names(&self) -> (names: Vec<String>)
        ensures
            text::texts(names@) == dict::ascending_keys(self@.typed) + dict::ascending_keys(
                self@.dynamic,
            ),
            self@.has_finitely_many(),
            forall|k: Seq<char>| #[trigger]
                self@.typed.contains_key(k) <==> dict::ascending_keys(self@.typed).contains(k),
            forall|k: Seq<char>| #[trigger]
                self@.dynamic.contains_key(k) <==> dict::ascending_keys(self@.dynamic).contains(k),
    {
        let mut names = self.typed.keys();
        let mut more = self.dynamic.keys();
        proof {
            let typed = self.typed.spec_keys();
            assert forall|k: Seq<char>| #[trigger] self@.typed.contains_key(k) <==> typed.contains(
                k,
            ) by {
                assert(self@.typed.contains_key(k) == self.typed@.contains_key(k));
            }
            dict::ascending_keys_are(self@.typed, typed);
            let dynamic = self.dynamic.spec_keys();
            assert forall|k: Seq<char>| #[trigger]
                self@.dynamic.contains_key(k) <==> dynamic.contains(k) by {
                assert(self@.dynamic.contains_key(k) == self.dynamic@.contains_key(k));
            }
            dict::ascending_keys_are(self@.dynamic, dynamic);
            vstd::seq_lib::seq_to_set_is_finite(typed);
            vstd::seq_lib::seq_to_set_is_finite(dynamic);
            assert(self@.typed.dom() =~= typed.to_set());
            assert(self@.dynamic.dom() =~= dynamic.to_set());
        }
        let ghost a = names@;
        let ghost b = more@;
        names.append(&mut more);
        assert(text::texts(names@) =~= text::texts(a) + text::texts(b));
        names
    }

    /// Checks that every requirement names a typed component, and that they do not form a circle.
    pub fn validate_requires(&self) -> (checked: Result<(), RegistryError>)
        ensures
            forall|k: Seq<char>| #[trigger]
                self@.typed.contains_key(k) <==> self@.typed_names().contains(k),
            match checked {
                Ok(()) => (forall|i: int, k: int| !#[trigger] self@.is_unknown(i, k))
                    && !order::has_cycle(self@.requires_graph()),
                Err(RegistryError::UnknownRequired { component, required }) => exists|
                    i: int,
                    k: int,
                | #[trigger]
                    self@.is_first_unknown(i, k) && component@ == self@.typed_names()[i]
                        && required@ == self@.required_at(i)[k],
                Err(RegistryError::RequiresCycle { chain }) => {
                    &&& forall|i: int, k: int| !#[trigger] self@.is_unknown(i, k)
                    &&& order::has_cycle(self@.requires_graph())
                    &&& exists|done: Seq<usize>, circle: Seq<usize>|
                        {
                            &&& #[trigger] order::is_stable_order(self@.requires_graph(), done)
                            &&& #[trigger] order::is_found_cycle(
                                self@.requires_graph(),
                                done,
                                circle,
                            )
                            &&& chain@ == text::joined(self@.trail_names(circle), " -> "@)
                        }
                },
                Err(_) => false,
            },
    {
        let names = self.typed.keys();
        let ghost all = self@.typed_names();
        let ghost graph = self@.requires_graph();
        proof {
            assert forall|k: Seq<char>| #[trigger]
                self@.typed.contains_key(k) <==> self.typed.spec_keys().contains(k) by {
                assert(self@.typed.contains_key(k) == self.typed@.contains_key(k));
            }
            dict::ascending_keys_are(self@.typed, self.typed.spec_keys());
            assert(all == text::texts(names@));
            assert(all.no_duplicates()) by {
                assert forall|i: int, j: int| 0 <= i < j < all.len() implies all[i] != all[j] by {
                    text::precedes_irreflexive(all[i]);
                }
            }
        }
        let n: usize = names.len();
        let mut before: Vec<Vec<usize>> = Vec::new();
        let mut i: usize = 0;
        while i < n
            invariant
                i <= n == names.len(),
                all == self@.typed_names(),
                all == self.typed.spec_keys(),
                all == text::texts(names@),
                all.no_duplicates(),
                graph == self@.requires_graph(),
                forall|k: Seq<char>| #[trigger] self@.typed.contains_key(k) <==> all.contains(k),
                before.len() == i,
                forall|j: int| 0 <= j < i ==> (#[trigger] before@[j])@ == graph[j],
                forall|a: int, k: int| a < i ==> !#[trigger] self@.is_unknown(a, k),
                forall|j: int, k: int|
                    0 <= j < i && 0 <= k < before@[j].len() ==> #[trigger] before@[j]@[k] < n,
            decreases n - i,
        {
            let (name, typed) = self.typed.entry_at(i);
            let ghost wanted = self@.required_at(i as int);
            assert(wanted == text::texts(typed.requires@));
            let mut list: Vec<usize> = Vec::new();
            let mut k: usize = 0;
            while k < typed.requires.len()
                invariant
                    k <= typed.requires.len(),
                    i < n == names.len(),
                    all == self@.typed_names(),
                    all == text::texts(names@),
                    all.no_duplicates(),
                    forall|k: Seq<char>| #[trigger]
                        self@.typed.contains_key(k) <==> all.contains(k),
                    name@ == all[i as int],
                    wanted == self@.required_at(i as int),
                    wanted == text::texts(typed.requires@),
                    list.len() == k,
                    forall|a: int, k: int| a < i ==> !#[trigger] self@.is_unknown(a, k),
                    forall|j: int|
                        0 <= j < k ==> #[trigger] list@[j] == text::place_of(all, wanted[j])
                            && list@[j] < n,
                    forall|j: int| 0 <= j < k ==> all.contains(#[trigger] wanted[j]),
                decreases typed.requires.len() - k,
            {
                assert(wanted[k as int] == typed.requires@[k as int]@);
                match text::position_of(&names, typed.requires[k].as_str()) {
                    Some(at) => {
                        assert(all[at as int] == wanted[k as int]);
                        list.push(at);
                    },
                    None => {
                        let required = typed.requires[k].clone();
                        proof {
                            assert(self@.is_unknown(i as int, k as int));
                            assert(self@.is_first_unknown(i as int, k as int));
                        }
                        return Err(
                            RegistryError::UnknownRequired { component: name.clone(), required },
                        );
                    },
                }
                k += 1;
            }
            assert(list@ =~= graph[i as int]);
            before.push(list);
            i += 1;
        }
        proof {
            assert(order::lists(before@) =~= graph);
            assert forall|a: int, k: int| 0 <= a < graph.len() && 0 <= k < graph[a].len() implies
                #[trigger] graph[a][k] < graph.len() by {
                assert(before@[a]@[k] < n);
            }
            assert forall|a: int, k: int| !#[trigger] self@.is_unknown(a, k) by {
                if self@.is_unknown(a, k) {
                    assert(a < n);
                }
            }
        }
        let done = order::stable_order(&before);
        if done.len() < n {
            let trail = order::found_cycle(&before, &done);
            let mut along: Vec<String> = Vec::new();
            let mut k: usize = 0;
            while k < trail.len()
                invariant
                    k <= trail.len(),
                    all == text::texts(names@),
                    along.len() == k,
                    forall|j: int| 0 <= j < trail.len() ==> #[trigger] trail@[j] < names.len(),
                    forall|j: int| 0 <= j < k ==> (#[trigger] along@[j])@ == all[trail@[j] as int],
                decreases trail.len() - k,
            {
                along.push(names[trail[k]].clone());
                k += 1;
            }
            let chain = text::join(&along, " -> ");
            proof {
                assert(text::texts(along@) =~= self@.trail_names(trail@));
                assert(order::is_stable_order(graph, done@));
                assert(order::is_found_cycle(graph, done@, trail@));
            }
            return Err(RegistryError::RequiresCycle { chain });
        }
        Ok(())
    }
}

impl Components {
    /// A typed component that requires another leads to it in the graph, and to nothing that it
    /// does not require.
    pub proof fn requirements_lead_to_what_is_required(self, name: Seq<char>, other: Seq<char>)
        requires
            self.has_finitely_many(),
            self.typed.contains_key(name),
            self.typed.contains_key(other),
            self.typed_names().len() <= usize::MAX,
            forall|k: int|
                0 <= k < self.typed[name].requires.len() ==> self.typed.contains_key(
                    #[trigger] self.typed[name].requires[k],
                ),
        ensures
            exists|i: int, j: int|
                {
                    &&& 0 <= i < self.typed_names().len()
                    &&& 0 <= j < self.typed_names().len()
                    &&& #[trigger] self.typed_names()[i] == name
                    &&& #[trigger] self.typed_names()[j] == other
                    &&& self.requires_graph()[i].contains(j as usize)
                        <==> self.typed[name].requires.contains(other)
                },
    {
        let names = self.typed_names();
        dict::ascending_keys_list_the_domain(self.typed);
        assert(names.contains(name) && names.contains(other));
        let i = choose|i: int| 0 <= i < names.len() && names[i] == name;
        let j = choose|j: int| 0 <= j < names.len() && names[j] == other;
        let list = self.requires_graph()[i];
        let wanted = self.typed[name].requires;
        if wanted.contains(other) {
            let k = choose|k: int| 0 <= k < wanted.len() && wanted[k] == other;
            ascending_names_have_one_place(names, j, text::place_of(names, other));
            assert(list[k] == j as usize);
        }
        if list.contains(j as usize) {
            let k = choose|k: int| 0 <= k < list.len() && list[k] == j as usize;
            assert(names.contains(wanted[k]));
            let at = text::place_of(names, wanted[k]);
            assert(names[at] == wanted[k]);
            assert(at == j);
        }
        assert(names[i] == name && names[j] == other);
    }

    /// Typed components that require each other in a circle are always found out: where each
    /// name of a chain requires the next and the chain ends where it began, there is a circle.
    pub proof fn circles_of_requirements_are_found(self, chain: Seq<Seq<char>>)
        requires
            self.has_finitely_many(),
            self.typed_names().len() <= usize::MAX,
            chain.len() >= 2,
            chain.first() == chain.last(),
            forall|i: int| 0 <= i < chain.len() ==> self.typed.contains_key(#[trigger] chain[i]),
            forall|i: int|
                0 <= i < chain.len() - 1 ==> self.typed[#[trigger] chain[i]].requires.contains(
                    chain[i + 1],
                ),
        ensures
            order::has_cycle(self.requires_graph()),
    {
        let names = self.typed_names();
        let graph = self.requires_graph();
        dict::ascending_keys_list_the_domain(self.typed);
        let path = chain.map_values(|c: Seq<char>| text::place_of(names, c) as usize);
        assert forall|i: int| 0 <= i < path.len() implies 0 <= #[trigger] path[i] < graph.len()
            && names[path[i] as int] == chain[i] by {
            assert(names.contains(chain[i]));
            let at = text::place_of(names, chain[i]);
            assert(names[at] == chain[i]);
        }
        assert forall|i: int| 0 <= i < path.len() - 1 implies graph[
            #[trigger] path[i] as int
        ].contains(path[i + 1]) by {
            let wanted = self.typed[chain[i]].requires;
            let k = choose|k: int| 0 <= k < wanted.len() && wanted[k] == chain[i + 1];
            assert(names[path[i] as int] == chain[i]);
            assert(graph[path[i] as int][k] == text::place_of(names, wanted[k]) as usize);
        }
        assert(path.first() == path.last());
        assert(order::is_cycle(graph, path));
    }
}

proof fn ascending_names_have_one_place(names: Seq<Seq<char>>, i: int, j: int)
    requires
        dict::strictly_ascending(names),
        0 <= i < names.len(),
        0 <= j < names.len(),
        names[i] == names[j],
    ensures
        i == j,
{
    text::precedes_irreflexive(names[i]);
}

/// A dynamic component that was registered is found under its name, with its id and its default;
/// one with the name of a typed component is refused and changes nothing.
pub proof fn registered_components_are_found(
    registry: &mut ComponentRegistry,
    after: &ComponentRegistry,
    name: &str,
    id: usize,
    default: Value,
    done: Result<(), RegistryError>,
    found: Option<ComponentKind<'_>>,
)
    requires
        call_ensures(ComponentRegistry::register_dynamic, (registry, name, id, default), done),
        after@ == final(registry)@,
        call_ensures(ComponentRegistry::resolve, (after, name), found),
    ensures
        done is Err <==> old(registry)@.typed.contains_key(name@),
        done is Err ==> final(registry)@ == old(registry)@,
        done is Ok ==> found is Some && found->Some_0 is Dynamic && found->Some_0->Dynamic_0.id
            == id && found->Some_0->Dynamic_0.default@ == default@,
{
}

/// A typed component that was registered is found as one, before any dynamic one of its name, and
/// requires nothing until it is told to; what it is told to require is added behind the rest.
pub proof fn typed_components_are_found_first(
    r1: &mut ComponentRegistry,
    r2: &mut ComponentRegistry,
    after: &ComponentRegistry,
    name: &str,
    id: usize,
    target: &str,
    found: Option<ComponentKind<'_>>,
    other: Seq<char>,
)
    requires
        call_ensures(ComponentRegistry::register_typed, (r1, name, id), ()),
        final(r1)@ == old(r2)@,
        call_ensures(ComponentRegistry::require, (r2, name, target), ()),
        after@ == final(r2)@,
        call_ensures(ComponentRegistry::resolve, (after, name), found),
    ensures
        found is Some,
        found->Some_0 is Typed,
        found->Some_0->Typed_0.id == id,
        found->Some_0->Typed_0.requires@.len() == 1,
        found->Some_0->Typed_0.requires@[0]@ == target@,
        other != name@ ==> (after@.typed.contains_key(other) <==> old(r1)@.typed.contains_key(
            other,
        )),
        other != name@ && old(r1)@.typed.contains_key(other) ==> after@.typed[other] == old(
            r1,
        )@.typed[other],
        after@.dynamic == old(r1)@.dynamic,
{
    let typed = found->Some_0->Typed_0;
    assert(typed@.requires == Seq::<Seq<char>>::empty().push(target@));
    assert(text::texts(typed.requires@).len() == 1);
    assert(text::texts(typed.requires@)[0] == typed.requires@[0]@);
}

/// Requirements are accepted exactly if each names a typed component and they lead nowhere in a
/// circle. A refusal over an unknown name tells a component and a name that it requires, which no
/// typed component has.
pub proof fn requirements_must_be_typed(
    registry: &ComponentRegistry,
    checked: Result<(), RegistryError>,
    name: Seq<char>,
    k: int,
)
    requires
        call_ensures(ComponentRegistry::validate_requires, (registry,), checked),
        registry@.has_finitely_many(),
        registry@.typed.contains_key(name),
        0 <= k < registry@.typed[name].requires.len(),
    ensures
        checked is Ok ==> registry@.typed.contains_key(registry@.typed[name].requires[k]),
        !registry@.typed.contains_key(registry@.typed[name].requires[k]) ==> checked is Err
            && checked->Err_0 is UnknownRequired,
        checked is Err && checked->Err_0 is UnknownRequired ==> {
            let component = checked->Err_0->UnknownRequired_component@;
            let required = checked->Err_0->UnknownRequired_required@;
            &&& registry@.typed.contains_key(component)
            &&& registry@.typed[component].requires.contains(required)
            &&& !registry@.typed.contains_key(required)
        },
        checked is Err && checked->Err_0 is RequiresCycle ==> registry@.typed.contains_key(
            registry@.typed[name].requires[k],
        ),
{
    let names = registry@.typed_names();
    assert(names.contains(name));
    let i = choose|i: int| 0 <= i < names.len() && names[i] == name;
    assert(registry@.required_at(i) == registry@.typed[name].requires);
    if !registry@.typed.contains_key(registry@.typed[name].requires[k]) {
        assert(registry@.is_unknown(i, k));
    }
    if checked is Err && checked->Err_0 is UnknownRequired {
        let component = checked->Err_0->UnknownRequired_component@;
        let required = checked->Err_0->UnknownRequired_required@;
        let (a, b) = choose|a: int, b: int| #[trigger]
            registry@.is_first_unknown(a, b) && component == names[a] && required
                == registry@.required_at(a)[b];
        assert(registry@.is_unknown(a, b));
        assert(names.contains(names[a]));
        assert(registry@.typed[component].requires[b] == required);
    }
}

/// A refusal over an unknown requirement tells the first component, by name, that has one.
pub proof fn the_first_unknown_requirement_is_told(
    registry: &ComponentRegistry,
    checked: Result<(), RegistryError>,
    name: Seq<char>,
    k: int,
)
    requires
        registry@.has_finitely_many(),
        call_ensures(ComponentRegistry::validate_requires, (registry,), checked),
        checked is Err,
        checked->Err_0 is UnknownRequired,
        registry@.typed.contains_key(name),
        0 <= k < registry@.typed[name].requires.len(),
        !registry@.typed.contains_key(registry@.typed[name].requires[k]),
    ensures
        name == checked->Err_0->UnknownRequired_component@ || text::precedes(
            checked->Err_0->UnknownRequired_component@,
            name,
        ),
{
    let names = registry@.typed_names();
    dict::ascending_keys_list_the_domain(registry@.typed);
    assert(names.contains(name));
    let i = choose|i: int| 0 <= i < names.len() && names[i] == name;
    assert(registry@.required_at(i) == registry@.typed[name].requires);
    assert(registry@.is_unknown(i, k));
    let component = checked->Err_0->UnknownRequired_component@;
    let required = checked->Err_0->UnknownRequired_required@;
    let (a, b) = choose|a: int, b: int| #[trigger]
        registry@.is_first_unknown(a, b) && component == names[a] && required
            == registry@.required_at(a)[b];
    assert(registry@.is_unknown(a, b));
    if a < i {
        assert(text::precedes(names[a], names[i]));
    }
}

} // verus!
