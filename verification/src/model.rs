//! The mathematical model of a module graph that the contracts speak of: the
//! graph's view, what each operation makes of it, and what a name resolves to.

use vstd::prelude::*;

use source_lang::SourceId;
use symbol_lang::Symbol;

use crate::error::ResolveError;
use crate::graph::{Entry, Visibility};
use crate::id::ModuleId;
use crate::names::symbol_id;

verus! {

/// What a module holds: its display name, the source it was read from, and its
/// names keyed by their symbol id.
pub struct ModuleView<T> {
    pub name: Symbol,
    pub source: SourceId,
    pub entries: Map<u32, Entry<T>>,
}

/// What a graph holds: the tag its ids carry, and its modules in insertion order.
pub struct GraphView<T> {
    pub tag: u64,
    pub modules: Seq<ModuleView<T>>,
}

/// Whether entry `b` is a clone of entry `a`: the same kind, visibility and
/// import source, with a payload that `T::clone` gave for `a`'s (or the same).
pub open spec fn entry_cloned<T: Clone>(a: Entry<T>, b: Entry<T>) -> bool {
    match (a, b) {
        (
            Entry::Define { visibility: va, value: xa },
            Entry::Define { visibility: vb, value: xb },
        ) => va == vb && vstd::pervasive::cloned(xa, xb),
        (Entry::Import { from: fa }, Entry::Import { from: fb }) => fa == fb,
        _ => false,
    }
}

/// Whether module `b` is a clone of module `a`: the same name, source and
/// declared names, each entry a clone of `a`'s.
pub open spec fn module_cloned<T: Clone>(a: ModuleView<T>, b: ModuleView<T>) -> bool {
    &&& a.name == b.name
    &&& a.source == b.source
    &&& a.entries.dom() == b.entries.dom()
    &&& forall|k: u32|
        a.entries.contains_key(k) ==> entry_cloned(a.entries[k], #[trigger] b.entries[k])
}

/// Whether graph `b` is a clone of graph `a`: the same tag, and each module a
/// clone of `a`'s.
pub open spec fn graph_cloned<T: Clone>(a: GraphView<T>, b: GraphView<T>) -> bool {
    &&& a.tag == b.tag
    &&& a.modules.len() == b.modules.len()
    &&& forall|i: int|
        0 <= i < a.modules.len() ==> module_cloned(a.modules[i], #[trigger] b.modules[i])
}

/// The graph with tag `tag` and no modules.
pub open spec fn empty_graph<T>(tag: u64) -> GraphView<T> {
    GraphView { tag, modules: Seq::empty() }
}

/// Whether `id` was minted by `g`: it carries `g`'s tag and indexes one of its
/// modules.
pub open spec fn minted<T>(g: GraphView<T>, id: ModuleId) -> bool {
    id.graph() == g.tag && id.index() < g.modules.len()
}

/// A graph is valid when its tag is not the tag of unminted ids, its modules can
/// all be named by a `u32` index, and every import edge names one of its modules.
pub open spec fn graph_wf<T>(g: GraphView<T>) -> bool {
    &&& g.tag != 0
    &&& g.modules.len() <= u32::MAX
    &&& forall|i: int, k: u32|
        0 <= i < g.modules.len() ==> edge_within(g, #[trigger] g.modules[i].entries.get(k))
}

/// An entry that is an import names a module minted by `g`.
pub open spec fn edge_within<T>(g: GraphView<T>, e: Option<Entry<T>>) -> bool {
    match e {
        Some(Entry::Import { from }) => minted(g, from),
        _ => true,
    }
}

/// The graph `g` with entry `e` for key `key` added to module `m`.
pub open spec fn with_entry<T>(g: GraphView<T>, m: int, key: u32, e: Entry<T>) -> GraphView<T> {
    GraphView {
        tag: g.tag,
        modules: g.modules.update(
            m,
            ModuleView {
                name: g.modules[m].name,
                source: g.modules[m].source,
                entries: g.modules[m].entries.insert(key, e),
            },
        ),
    }
}

/// The graph `g` with a fresh, empty module appended.
pub open spec fn with_module<T>(g: GraphView<T>, name: Symbol, source: SourceId) -> GraphView<T> {
    GraphView { tag: g.tag, modules: g.modules.push(ModuleView { name, source, entries: Map::empty() }) }
}

/// Whether module `module` of `g` declares `name`.
pub open spec fn declares<T>(g: GraphView<T>, module: ModuleId, name: Symbol) -> bool {
    g.modules[module.index() as int].entries.contains_key(symbol_id(name))
}

/// What defining `name` in `module` answers.
pub open spec fn define_result<T>(g: GraphView<T>, module: ModuleId, name: Symbol) -> Result<
    (),
    ResolveError,
> {
    if !minted(g, module) {
        Err(ResolveError::UnknownModule(module))
    } else if declares(g, module, name) {
        Err(ResolveError::DuplicateName { module, name })
    } else {
        Ok(())
    }
}

/// The graph after defining `name` in `module`: unchanged where that fails.
pub open spec fn after_define<T>(
    g: GraphView<T>,
    module: ModuleId,
    name: Symbol,
    visibility: Visibility,
    value: T,
) -> GraphView<T> {
    if define_result(g, module, name) is Ok {
        with_entry(g, module.index() as int, symbol_id(name), Entry::Define { visibility, value })
    } else {
        g
    }
}

/// What importing `name` into `into` from `from` answers; `from` is checked
/// first.
pub open spec fn import_result<T>(
    g: GraphView<T>,
    into: ModuleId,
    from: ModuleId,
    name: Symbol,
) -> Result<(), ResolveError> {
    if !minted(g, from) {
        Err(ResolveError::UnknownModule(from))
    } else if !minted(g, into) {
        Err(ResolveError::UnknownModule(into))
    } else if declares(g, into, name) {
        Err(ResolveError::DuplicateName { module: into, name })
    } else {
        Ok(())
    }
}

/// The graph after importing `name` into `into` from `from`: unchanged where
/// that fails.
pub open spec fn after_import<T>(
    g: GraphView<T>,
    into: ModuleId,
    from: ModuleId,
    name: Symbol,
) -> GraphView<T> {
    if import_result(g, into, from, name) is Ok {
        with_entry(g, into.index() as int, symbol_id(name), Entry::Import { from })
    } else {
        g
    }
}

/// What `name` refers to as seen from within `module`.
///
/// A name the module declares by definition resolves to its payload whatever its
/// visibility; a name it imports is followed with `export_walk`, the module
/// itself counting as already visited.
pub open spec fn resolution<T>(g: GraphView<T>, module: ModuleId, name: Symbol) -> Result<
    T,
    ResolveError,
> {
    if !minted(g, module) {
        Err(ResolveError::UnknownModule(module))
    } else {
        match g.modules[module.index() as int].entries.get(symbol_id(name)) {
            None => Err(ResolveError::Unresolved { module, name }),
            Some(Entry::Define { value, .. }) => Ok(value),
            Some(Entry::Import { from }) => export_walk(
                g,
                from,
                name,
                seq![(module.raw(), symbol_id(name))],
            ),
        }
    }
}

/// The indices below `n` whose pair with `key` is in `visited`.
pub open spec fn seen(n: nat, key: u32, visited: Seq<(u32, u32)>) -> Set<nat> {
    Set::new(|i: nat| i < n && visited.contains((i as u32, key)))
}

/// The modules of `g` whose pair with `key` a walk has not visited yet.
pub open spec fn room<T>(g: GraphView<T>, key: u32, visited: Seq<(u32, u32)>) -> int {
    g.modules.len() - seen(g.modules.len(), key, visited).len()
}

/// What `name` refers to as a public export of `module`, following re-imports,
/// where `visited` holds the `(module index, symbol id)` pairs already seen.
///
/// Returning to a seen pair is a cycle; a module the graph did not mint is
/// unknown; otherwise the module's entry decides, an import moving on to its
/// source with the module's pair added to `visited`.
pub open spec fn export_walk<T>(
    g: GraphView<T>,
    module: ModuleId,
    name: Symbol,
    visited: Seq<(u32, u32)>,
) -> Result<T, ResolveError>
    decreases room(g, symbol_id(name), visited),
{
    let pair = (module.raw(), symbol_id(name));
    if visited.contains(pair) {
        Err(ResolveError::ImportCycle { module, name })
    } else if !minted(g, module) {
        Err(ResolveError::UnknownModule(module))
    } else {
        match g.modules[module.index() as int].entries.get(symbol_id(name)) {
            None => Err(ResolveError::Unresolved { module, name }),
            Some(Entry::Define { visibility: Visibility::Public, value }) => Ok(value),
            Some(Entry::Define { visibility: Visibility::Private, .. }) => Err(
                ResolveError::Private { module, name },
            ),
            Some(Entry::Import { from }) => {
                proof {
                    lemma_room_shrinks(g, symbol_id(name), visited, module.raw());
                }
                export_walk(g, from, name, visited.push(pair))
            },
        }
    }
}

/// The pairs `export_walk` adds to `visited`, in order: one per module it stands
/// on, except a module whose pair was already seen.
pub open spec fn walk_trail<T>(
    g: GraphView<T>,
    module: ModuleId,
    name: Symbol,
    visited: Seq<(u32, u32)>,
) -> Seq<(u32, u32)>
    decreases room(g, symbol_id(name), visited),
{
    let pair = (module.raw(), symbol_id(name));
    if visited.contains(pair) {
        Seq::empty()
    } else if !minted(g, module) {
        seq![pair]
    } else {
        match g.modules[module.index() as int].entries.get(symbol_id(name)) {
            Some(Entry::Import { from }) => {
                proof {
                    lemma_room_shrinks(g, symbol_id(name), visited, module.raw());
                }
                seq![pair] + walk_trail(g, from, name, visited.push(pair))
            },
            _ => seq![pair],
        }
    }
}

/// The numbers below `n` form a finite set of `n` elements.
pub proof fn lemma_nat_range(n: nat)
    ensures
        Set::new(|x: nat| x < n).finite(),
        Set::new(|x: nat| x < n).len() == n,
    decreases n,
{
    if n == 0 {
        assert(Set::new(|x: nat| x < n) =~= Set::empty());
    } else {
        lemma_nat_range((n - 1) as nat);
        assert(Set::new(|x: nat| x < (n - 1) as nat).insert((n - 1) as nat) =~= Set::new(
            |x: nat| x < n,
        ));
    }
}

/// The seen indices are a finite set of at most `n` elements.
pub proof fn lemma_seen_bounded(n: nat, key: u32, visited: Seq<(u32, u32)>)
    ensures
        seen(n, key, visited).finite(),
        seen(n, key, visited).len() <= n,
{
    lemma_nat_range(n);
    vstd::set_lib::lemma_len_subset(seen(n, key, visited), Set::new(|x: nat| x < n));
}

/// Visiting an unseen module of the graph leaves less room, and never less than
/// none.
pub proof fn lemma_room_shrinks<T>(g: GraphView<T>, key: u32, visited: Seq<(u32, u32)>, i: u32)
    requires
        (i as nat) < g.modules.len(),
        !visited.contains((i, key)),
    ensures
        0 <= room(g, key, visited.push((i, key))) < room(g, key, visited),
{
    let n = g.modules.len();
    let before = seen(n, key, visited);
    let after = seen(n, key, visited.push((i, key)));
    lemma_seen_bounded(n, key, visited);
    lemma_seen_bounded(n, key, visited.push((i, key)));
    assert(!before.contains(i as nat));
    assert(before.insert(i as nat).subset_of(after)) by {
        assert forall|j: nat| before.insert(i as nat).contains(j) implies after.contains(j) by {
            if j == i as nat {
                assert(visited.push((i, key))[visited.len() as int] == (i, key));
            } else {
                let k = choose|k: int| 0 <= k < visited.len() && visited[k] == (j as u32, key);
                assert(visited.push((i, key))[k] == (j as u32, key));
            }
        }
    }
    vstd::set_lib::lemma_len_subset(before.insert(i as nat), after);
}

/// The pairs a walk adds are fresh: distinct from each other and from those
/// seen before; and there are at most one more of them than the modules the
/// walk had not visited, so at most one more than the graph has modules. A walk
/// therefore ends in a bounded number of steps, whatever `visited` held.
pub proof fn lemma_walk_trail_fresh<T>(
    g: GraphView<T>,
    module: ModuleId,
    name: Symbol,
    visited: Seq<(u32, u32)>,
)
    ensures
        walk_trail(g, module, name, visited).no_duplicates(),
        forall|i: int|
            0 <= i < walk_trail(g, module, name, visited).len() ==> !visited.contains(
                #[trigger] walk_trail(g, module, name, visited)[i],
            ),
        walk_trail(g, module, name, visited).len() <= room(g, symbol_id(name), visited) + 1,
        walk_trail(g, module, name, visited).len() <= g.modules.len() + 1,
    decreases room(g, symbol_id(name), visited),
{
    let key = symbol_id(name);
    let pair = (module.raw(), key);
    lemma_seen_bounded(g.modules.len(), key, visited);
    if !visited.contains(pair) && minted(g, module) {
        if let Some(Entry::Import { from }) = g.modules[module.index() as int].entries.get(key) {
            let next = visited.push(pair);
            lemma_room_shrinks(g, key, visited, module.raw());
            lemma_walk_trail_fresh(g, from, name, next);
            let rest = walk_trail(g, from, name, next);
            let t = walk_trail(g, module, name, visited);
            assert(t == seq![pair] + rest);
            assert forall|i: int| 0 <= i < rest.len() implies !visited.contains(rest[i])
                && rest[i] != pair by {
                assert(!next.contains(rest[i]));
                if visited.contains(rest[i]) {
                    let k = choose|k: int| 0 <= k < visited.len() && visited[k] == rest[i];
                    assert(next[k] == rest[i]);
                }
                assert(next[visited.len() as int] == pair);
            }
            assert forall|i: int, j: int| 0 <= i < t.len() && 0 <= j < t.len() && i != j implies t[i]
                != t[j] by {
                if i > 0 && j > 0 {
                    assert(t[i] == rest[i - 1] && t[j] == rest[j - 1]);
                } else if i == 0 {
                    assert(t[j] == rest[j - 1]);
                } else {
                    assert(t[i] == rest[i - 1]);
                }
            }
            assert forall|i: int| 0 <= i < t.len() implies !visited.contains(#[trigger] t[i]) by {
                if i > 0 {
                    assert(t[i] == rest[i - 1]);
                }
            }
        }
    }
}

/// On a valid graph, a walk from a module it minted adds no more pairs than the
/// modules it had not visited, as each pair it adds is that of an unvisited
/// module of the graph; from a module it did not mint, at most one. So on a
/// graph that holds a module, a walk adds at most as many pairs as the graph has
/// modules.
pub proof fn lemma_walk_trail_within_room<T>(
    g: GraphView<T>,
    module: ModuleId,
    name: Symbol,
    visited: Seq<(u32, u32)>,
)
    requires
        graph_wf(g),
    ensures
        minted(g, module) ==> walk_trail(g, module, name, visited).len() <= room(
            g,
            symbol_id(name),
            visited,
        ),
        walk_trail(g, module, name, visited).len() <= if g.modules.len() >= 1 {
            g.modules.len()
        } else {
            1
        },
    decreases room(g, symbol_id(name), visited),
{
    let key = symbol_id(name);
    let pair = (module.raw(), key);
    lemma_seen_bounded(g.modules.len(), key, visited);
    if !visited.contains(pair) && minted(g, module) {
        lemma_room_shrinks(g, key, visited, module.raw());
        if let Some(Entry::Import { from }) = g.modules[module.index() as int].entries.get(key) {
            assert(edge_within(g, g.modules[module.index() as int].entries.get(key)));
            lemma_walk_trail_within_room(g, from, name, visited.push(pair));
        }
    }
}

} // verus!
