//! The module graph and name resolution.

use std::collections::BTreeMap;

use vstd::prelude::*;

use source_lang::SourceId;
use symbol_lang::Symbol;

use crate::error::ResolveError;
use crate::id::ModuleId;
use crate::laws::{
    answers_alike, lemma_clone_keeps_ids, lemma_new_module_is_empty,
    lemma_new_module_keeps_resolutions,
};
use crate::model::{
    after_define, after_import, define_result, empty_graph, entry_cloned, export_walk, graph_cloned,
    graph_wf, import_result, module_cloned,
    lemma_room_shrinks, lemma_walk_trail_fresh, lemma_walk_trail_within_room, minted, resolution, room, walk_trail, with_entry,
    with_module, GraphView, ModuleView,
};
use crate::names::{symbol_id, symbol_key};
use crate::tag::fresh_tag;

verus! {

broadcast use vstd::std_specs::btree::group_btree_axioms;

/// Whether an item is visible outside the module that declares it.
///
/// Visibility gates cross-module access only: a module always reaches its own
/// names, public or private, but an import from another module reaches a name
/// only if it is `Public`. A `Private` name reached through an import resolves to
/// `ResolveError::Private`.
#[derive(Clone, Copy, Debug, PartialEq, Eq, Structural, Hash)]
pub enum Visibility {
    /// Resolvable from other modules through an import.
    Public,
    /// Resolvable only from within the module that declares it.
    Private,
}

/// One named entry in a module: either a definition made there, or a name
/// imported from another module under the same spelling.
#[derive(Clone, Debug)]
pub enum Entry<T> {
    /// A name defined in this module, with its visibility and payload.
    Define {
        /// Whether the definition is reachable from other modules.
        visibility: Visibility,
        /// The language-supplied payload the name resolves to.
        value: T,
    },
    /// A name brought in from another module; resolution follows `from`.
    Import {
        /// The module the name is imported from.
        from: ModuleId,
    },
}

/// A single module: where it came from, and the names it declares.
#[derive(Debug)]
struct Module<T> {
    name: Symbol,
    source: SourceId,
    entries: BTreeMap<u32, Entry<T>>,
}

impl<T: Clone> Clone for Module<T> {
    fn clone(&self) -> (copy: Self)
        ensures
            module_cloned(self@, copy@),
    {
        let copy = Module { name: self.name, source: self.source, entries: self.entries.clone() };
        assert(copy.entries@ == self.entries@);
        copy
    }
}

impl<T> View for Module<T> {
    type V = ModuleView<T>;

    closed spec fn view(&self) -> ModuleView<T> {
        ModuleView { name: self.name, source: self.source, entries: self.entries@ }
    }
}

/// A set of modules and the import edges between them, against which names are
/// resolved.
///
/// Each module is added with a name and the source it came from, then has names
/// defined in it and imported into it from other modules. `resolve` answers which
/// payload a name refers to, or why it refers to none. A module's namespace is
/// flat: a name is declared at most once per module, by definition or import.
/// Each graph draws a tag of its own, which the ids it mints carry, so that an id
/// of another graph is reported as unknown.
#[derive(Debug)]
pub struct ModuleGraph<T> {
    tag: u64,
    modules: Vec<Module<T>>,
}

impl<T> View for ModuleGraph<T> {
    type V = GraphView<T>;

    closed spec fn view(&self) -> GraphView<T> {
        GraphView { tag: self.tag, modules: self.modules@.map_values(|m: Module<T>| m@) }
    }
}

impl<T: Clone> Clone for ModuleGraph<T> {
    /// A copy with the same tag and modules, each payload cloned with
    /// `T::clone`, so ids of this graph name the same modules in the copy.
    fn clone(&self) -> (copy: Self)
        ensures
            graph_cloned(self@, copy@),
            copy@.tag == self@.tag,
            copy@.modules.len() == self@.modules.len(),
            forall|q: ModuleId|
                #[trigger] minted(self@, q) ==> minted(copy@, q) && copy@.modules[q.index() as int].name
                    == self@.modules[q.index() as int].name && copy@.modules[q.index() as int].source
                    == self@.modules[q.index() as int].source,
            forall|q: ModuleId, n: Symbol|
                answers_alike(resolution(self@, q, n), #[trigger] resolution(copy@, q, n)),
            self.well_formed() ==> copy.well_formed(),
    {
        let copy = ModuleGraph { tag: self.tag, modules: self.modules.clone() };
        let ghost a = self@;
        let ghost b = copy@;
        assert forall|i: int| 0 <= i < a.modules.len() implies module_cloned(
            a.modules[i],
            #[trigger] b.modules[i],
        ) by {
            assert(vstd::pervasive::cloned(self.modules@[i], copy.modules@[i]));
            if self.modules@[i] == copy.modules@[i] {
                let m = a.modules[i];
                assert forall|k: u32| m.entries.contains_key(k) implies entry_cloned(
                    m.entries[k],
                    #[trigger] m.entries[k],
                ) by {
                    match m.entries[k] {
                        Entry::Define { value, .. } => {
                            assert(vstd::pervasive::cloned(value, value));
                        },
                        _ => {},
                    }
                }
            }
        }
        proof {
            if self.well_formed() {
                assert forall|i: int, k: u32| 0 <= i < b.modules.len() implies crate::model::edge_within(
                    b,
                    #[trigger] b.modules[i].entries.get(k),
                ) by {
                    assert(crate::model::edge_within(a, a.modules[i].entries.get(k)));
                    assert(module_cloned(a.modules[i], b.modules[i]));
                    if a.modules[i].entries.contains_key(k) {
                        assert(b.modules[i].entries.contains_key(k));
                        assert(entry_cloned(a.modules[i].entries[k], b.modules[i].entries[k]));
                    } else {
                        assert(!b.modules[i].entries.dom().contains(k));
                    }
                }
            }
        }
        assert forall|q: ModuleId, n: Symbol| answers_alike(
            resolution(a, q, n),
            #[trigger] resolution(b, q, n),
        ) by {
            lemma_clone_keeps_ids(a, b, q, n);
        }
        assert forall|q: ModuleId| #[trigger] minted(a, q) implies minted(b, q)
            && b.modules[q.index() as int].name == a.modules[q.index() as int].name
            && b.modules[q.index() as int].source == a.modules[q.index() as int].source by {
            lemma_clone_keeps_ids(a, b, q, a.modules[q.index() as int].name);
        }
        copy
    }
}

impl<T> Default for ModuleGraph<T> {
    fn default() -> (graph: Self)
        ensures
            graph.well_formed(),
            graph@ == empty_graph::<T>(graph@.tag),
    {
        Self::new()
    }
}

impl<T> ModuleGraph<T> {
    /// The graph's invariant: see `graph_wf`.
    pub open spec fn well_formed(&self) -> bool {
        graph_wf(self@)
    }

    /// Creates an empty graph with a fresh tag.
    pub fn new() -> (graph: Self)
        ensures
            graph.well_formed(),
            graph@ == empty_graph::<T>(graph@.tag),
    {
        let graph = Self { tag: fresh_tag(), modules: Vec::new() };
        assert(graph@.modules =~= Seq::<ModuleView<T>>::empty());
        graph
    }

    /// Creates an empty graph with a fresh tag and room for `modules` modules
    /// before it reallocates. A hint only: the graph still grows as needed.
    pub fn with_capacity(modules: usize) -> (graph: Self)
        ensures
            graph.well_formed(),
            graph@ == empty_graph::<T>(graph@.tag),
    {
        let graph = Self { tag: fresh_tag(), modules: Vec::with_capacity(modules) };
        assert(graph@.modules =~= Seq::<ModuleView<T>>::empty());
        graph
    }

    /// Number of modules in the graph.
    pub fn len(&self) -> (n: usize)
        ensures
            n == self@.modules.len(),
    {
        self.modules.len()
    }

    /// Whether the graph holds no modules.
    pub fn is_empty(&self) -> (empty: bool)
        ensures
            empty == (self@.modules.len() == 0),
    {
        self.modules.len() == 0
    }

    /// Adds a module with a display `name` and the `source` it was read from,
    /// returning its id: the graph's tag and the module's insertion order, which
    /// never changes. The modules already there keep their names, sources and
    /// what names resolve to from them.
    pub fn add_module(&mut self, name: Symbol, source: SourceId) -> (id: ModuleId)
        requires
            old(self).well_formed(),
            old(self)@.modules.len() < u32::MAX,
        ensures
            final(self).well_formed(),
            id.index() == old(self)@.modules.len(),
            id.graph() == old(self)@.tag,
            final(self)@ == with_module(old(self)@, name, source),
            final(self)@.modules.len() == old(self)@.modules.len() + 1,
            final(self)@.modules[id.index() as int].name == name,
            final(self)@.modules[id.index() as int].source == source,
            final(self)@.modules[id.index() as int].entries == Map::<u32, Entry<T>>::empty(),
            forall|n: Symbol|
                #[trigger] resolution(final(self)@, id, n) == Err::<T, ResolveError>(
                    ResolveError::Unresolved { module: id, name: n },
                ),
            forall|q: ModuleId|
                #[trigger] minted(old(self)@, q) ==> minted(final(self)@, q) && final(self)@.modules[q.index() as int]
                    == old(self)@.modules[q.index() as int],
            forall|q: ModuleId, n: Symbol|
                minted(old(self)@, q) ==> #[trigger] resolution(final(self)@, q, n) == resolution(
                    old(self)@,
                    q,
                    n,
                ),
    {
        let index = self.modules.len();
        let module = Module { name, source, entries: BTreeMap::new() };
        self.modules.push(module);
        let ghost g = self@;
        let ghost g0 = old(self)@;
        assert(g.modules =~= with_module(g0, name, source).modules);
        assert forall|i: int, k: u32| 0 <= i < g.modules.len() implies crate::model::edge_within(
            g,
            #[trigger] g.modules[i].entries.get(k),
        ) by {
            if i < g0.modules.len() {
                assert(g.modules[i] == g0.modules[i]);
                assert(crate::model::edge_within(g0, g0.modules[i].entries.get(k)));
            }
        }
        assert forall|q: ModuleId, n: Symbol| minted(g0, q) implies #[trigger] resolution(g, q, n)
            == resolution(g0, q, n) by {
            lemma_new_module_keeps_resolutions(g0, name, source, q, n);
        }
        let id = ModuleId::new_in(self.tag, index as u32);
        assert forall|n: Symbol| #[trigger] resolution(g, id, n) == Err::<T, ResolveError>(
            ResolveError::Unresolved { module: id, name: n },
        ) by {
            lemma_new_module_is_empty(g0, name, source, id, n);
        }
        id
    }

    /// Whether this graph minted `id`.
    fn owns(&self, id: ModuleId) -> (owned: bool)
        ensures
            owned == minted(self@, id),
    {
        id.graph_tag() == self.tag && id.to_index() < self.modules.len()
    }

    /// Defines `name` in `module` with a visibility and a payload.
    ///
    /// Fails with `UnknownModule` if this graph did not mint `module`, and with
    /// `DuplicateName` if the module already declares the name, by definition or
    /// by import; the graph is then unchanged.
    pub fn define(&mut self, module: ModuleId, name: Symbol, visibility: Visibility, value: T) -> (r:
        Result<(), ResolveError>)
        requires
            old(self).well_formed(),
        ensures
            final(self).well_formed(),
            r == define_result(old(self)@, module, name),
            final(self)@ == after_define(old(self)@, module, name, visibility, value),
    {
        if !self.owns(module) {
            return Err(ResolveError::UnknownModule(module));
        }
        let index = module.to_index();
        let key = symbol_key(name);
        if self.modules[index].entries.contains_key(&key) {
            return Err(ResolveError::DuplicateName { module, name });
        }
        self.insert_entry(index, key, Entry::Define { visibility, value });
        Ok(())
    }

    /// Imports `name` into `into` from the `from` module, keeping its spelling.
    ///
    /// Only the edge is recorded: `name` need not be defined in `from` yet, so a
    /// graph can be built in any order. Fails with `UnknownModule` if this graph
    /// did not mint either id (`from` is checked first), and with `DuplicateName`
    /// if `into` already declares `name`; the graph is then unchanged.
    pub fn import(&mut self, into: ModuleId, from: ModuleId, name: Symbol) -> (r: Result<
        (),
        ResolveError,
    >)
        requires
            old(self).well_formed(),
        ensures
            final(self).well_formed(),
            r == import_result(old(self)@, into, from, name),
            final(self)@ == after_import(old(self)@, into, from, name),
    {
        if !self.owns(from) {
            return Err(ResolveError::UnknownModule(from));
        }
        if !self.owns(into) {
            return Err(ResolveError::UnknownModule(into));
        }
        let index = into.to_index();
        let key = symbol_key(name);
        if self.modules[index].entries.contains_key(&key) {
            return Err(ResolveError::DuplicateName { module: into, name });
        }
        self.insert_entry(index, key, Entry::Import { from });
        Ok(())
    }

    /// Adds the entry `e` under `key` to the module at `index`, where the key is
    /// not declared yet.
    fn insert_entry(&mut self, index: usize, key: u32, e: Entry<T>)
        requires
            old(self).well_formed(),
            index < old(self)@.modules.len(),
            !old(self)@.modules[index as int].entries.contains_key(key),
            e matches Entry::Import { from } ==> minted(old(self)@, from),
        ensures
            final(self).well_formed(),
            final(self)@ == with_entry(old(self)@, index as int, key, e),
    {
        let ghost e0 = e;
        let _ = self.modules[index].entries.insert(key, e);
        let ghost g = self@;
        let ghost g0 = old(self)@;
        assert(g.modules =~= with_entry(g0, index as int, key, e0).modules) by {
            assert forall|i: int| 0 <= i < g.modules.len() implies #[trigger] g.modules[i]
                == with_entry(g0, index as int, key, e0).modules[i] by {
                if i == index {
                    assert(g.modules[i].entries =~= g0.modules[i].entries.insert(key, e0));
                }
            }
        }
        assert forall|i: int, k: u32| 0 <= i < g.modules.len() implies crate::model::edge_within(
            g,
            #[trigger] g.modules[i].entries.get(k),
        ) by {
            assert(crate::model::edge_within(g0, g0.modules[i].entries.get(k)));
            if i != index || k != key {
                assert(g.modules[i].entries.get(k) == g0.modules[i].entries.get(k));
            }
        }
    }

    /// Resolves `name` as seen from within `module`, returning the payload it
    /// refers to: see `resolution`.
    ///
    /// A name defined in the module wins, public or private; an imported name is
    /// followed along its chain of re-imports to the public definition it names.
    pub fn resolve(&self, module: ModuleId, name: Symbol) -> (r: Result<&T, ResolveError>)
        requires
            self.well_formed(),
        ensures
            match r {
                Ok(v) => resolution(self@, module, name) == Ok::<T, ResolveError>(*v),
                Err(e) => resolution(self@, module, name) == Err::<T, ResolveError>(e),
            },
    {
        let source = match self.module(module) {
            Ok(m) => m,
            Err(e) => return Err(e),
        };
        let key = symbol_key(name);
        let from = match source.entries.get(&key) {
            None => return Err(ResolveError::Unresolved { module, name }),
            Some(Entry::Define { value, .. }) => return Ok(value),
            Some(Entry::Import { from }) => *from,
        };
        let mut visited: Vec<(u32, u32)> = Vec::new();
        visited.push((module.to_u32(), key));
        assert(visited@ =~= seq![(module.raw(), symbol_id(name))]);
        self.resolve_export(from, name, key, &mut visited)
    }

    /// The display name a module was added with, or `None` if this graph did not
    /// mint `module`.
    pub fn module_name(&self, module: ModuleId) -> (r: Option<Symbol>)
        ensures
            r == (if minted(self@, module) {
                Some(self@.modules[module.index() as int].name)
            } else {
                None
            }),
    {
        if self.owns(module) {
            Some(self.modules[module.to_index()].name)
        } else {
            None
        }
    }

    /// The source a module was added with, or `None` if this graph did not mint
    /// `module`.
    pub fn module_source(&self, module: ModuleId) -> (r: Option<SourceId>)
        ensures
            r == (if minted(self@, module) {
                Some(self@.modules[module.index() as int].source)
            } else {
                None
            }),
    {
        if self.owns(module) {
            Some(self.modules[module.to_index()].source)
        } else {
            None
        }
    }

    /// Borrows a module by id, or reports it as unknown.
    fn module(&self, id: ModuleId) -> (r: Result<&Module<T>, ResolveError>)
        ensures
            match r {
                Ok(m) => minted(self@, id) && m@ == self@.modules[id.index() as int],
                Err(e) => !minted(self@, id) && e == ResolveError::UnknownModule(id),
            },
    {
        if self.owns(id) {
            Ok(&self.modules[id.to_index()])
        } else {
            Err(ResolveError::UnknownModule(id))
        }
    }

    /// Whether `visited` holds the pair `(module, key)`.
    fn visited_contains(visited: &Vec<(u32, u32)>, module: u32, key: u32) -> (found: bool)
        ensures
            found == visited@.contains((module, key)),
    {
        let mut i: usize = 0;
        while i < visited.len()
            invariant
                i <= visited@.len(),
                forall|j: int| 0 <= j < i ==> #[trigger] visited@[j] != (module, key),
            decreases visited@.len() - i,
        {
            if visited[i].0 == module && visited[i].1 == key {
                assert(visited@[i as int] == (module, key));
                return true;
            }
            i = i + 1;
        }
        false
    }

    /// Resolves `name` (whose symbol id is `key`) as a public export of `start`,
    /// following any chain of re-imports to the definition it names: see
    /// `export_walk`. `visited` carries the `(module, name)` pairs already seen,
    /// so a chain that loops back is reported as a cycle; the pair of each module
    /// the walk stands on is appended to it (see `walk_trail`). The walk is
    /// iterative, and appends fresh pairs only: at most as many as the graph has
    /// modules, when it has any. Each pass of the loop but the last appends one,
    /// so the loop runs at most one more time than the graph has modules.
    fn resolve_export(
        &self,
        start: ModuleId,
        name: Symbol,
        key: u32,
        visited: &mut Vec<(u32, u32)>,
    ) -> (r: Result<&T, ResolveError>)
        requires
            self.well_formed(),
            key == symbol_id(name),
        ensures
            match r {
                Ok(v) => export_walk(self@, start, name, old(visited)@) == Ok::<T, ResolveError>(
                    *v,
                ),
                Err(e) => export_walk(self@, start, name, old(visited)@) == Err::<T, ResolveError>(
                    e,
                ),
            },
            final(visited)@ == old(visited)@ + walk_trail(self@, start, name, old(visited)@),
            walk_trail(self@, start, name, old(visited)@).no_duplicates(),
            forall|i: int|
                old(visited)@.len() <= i < final(visited)@.len() ==> !old(visited)@.contains(
                    #[trigger] final(visited)@[i],
                ),
            final(visited)@.len() <= old(visited)@.len() + self@.modules.len() + 1,
            self@.modules.len() >= 1 ==> final(visited)@.len() <= old(visited)@.len()
                + self@.modules.len(),
    {
        let ghost g = self@;
        let ghost v0 = visited@;
        let ghost target = export_walk(g, start, name, v0);
        let ghost trail = v0 + walk_trail(g, start, name, v0);
        proof {
            lemma_walk_trail_fresh(g, start, name, v0);
            lemma_walk_trail_within_room(g, start, name, v0);
            assert forall|i: int| v0.len() <= i < trail.len() implies !v0.contains(
                #[trigger] trail[i],
            ) by {
                assert(trail[i] == walk_trail(g, start, name, v0)[i - v0.len()]);
            }
        }
        let mut module = start;
        let ghost mut steps: int = 0;
        loop
            invariant
                steps == visited@.len() - v0.len(),
                steps <= g.modules.len(),
                self.well_formed(),
                g == self@,
                key == symbol_id(name),
                v0 == old(visited)@,
                target == export_walk(g, start, name, v0),
                trail == v0 + walk_trail(g, start, name, v0),
                trail.len() <= v0.len() + g.modules.len() + 1,
                g.modules.len() >= 1 ==> trail.len() <= v0.len() + g.modules.len(),
                walk_trail(g, start, name, v0).no_duplicates(),
                forall|i: int| v0.len() <= i < trail.len() ==> !v0.contains(#[trigger] trail[i]),
                export_walk(g, module, name, visited@) == target,
                visited@ + walk_trail(g, module, name, visited@) == trail,
            decreases room(g, key, visited@),
        {
            let index = module.to_u32();
            if Self::visited_contains(visited, index, key) {
                assert(walk_trail(g, module, name, visited@) =~= Seq::<(u32, u32)>::empty());
                assert(visited@ =~= trail);
                return Err(ResolveError::ImportCycle { module, name });
            }
            let ghost before = visited@;
            visited.push((index, key));
            let found = match self.module(module) {
                Ok(m) => m,
                Err(e) => {
                    assert(visited@ =~= trail);
                    return Err(e);
                },
            };
            match found.entries.get(&key) {
                None => {
                    assert(visited@ =~= trail);
                    return Err(ResolveError::Unresolved { module, name });
                },
                Some(Entry::Define { visibility: Visibility::Public, value }) => {
                    assert(visited@ =~= trail);
                    return Ok(value);
                },
                Some(Entry::Define { visibility: Visibility::Private, .. }) => {
                    assert(visited@ =~= trail);
                    return Err(ResolveError::Private { module, name });
                },
                Some(Entry::Import { from }) => {
                    assert(g.modules[module.index() as int].entries.get(key) == Some(
                        Entry::<T>::Import { from: *from },
                    ));
                    proof {
                        lemma_room_shrinks(g, key, before, index);
                        assert(visited@ == before.push((index, key)));
                        assert(before + walk_trail(g, module, name, before) =~= visited@
                            + walk_trail(g, *from, name, visited@));
                    }
                    module = *from;
                    proof {
                        steps = steps + 1;
                    }
                },
            }
        }
    }
}

} // verus!
