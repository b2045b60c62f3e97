//! What resolution promises on every valid graph, stated over the model
//! (`resolution`, `export_walk`, `after_define`, `after_import`, `with_module`)
//! that the contracts of `ModuleGraph`'s operations use.

use vstd::prelude::*;

use source_lang::SourceId;
use symbol_lang::Symbol;

use crate::error::ResolveError;
use crate::graph::{Entry, Visibility};
use crate::id::ModuleId;
use crate::model::{
    entry_cloned, graph_cloned, module_cloned, after_define, after_import, declares, define_result, empty_graph, export_walk, graph_wf,
    import_result, lemma_room_shrinks, minted, resolution, room, with_entry, with_module,
    GraphView,
};
use crate::names::symbol_id;

verus! {

/// A name defined in a module resolves there to its payload, public or private:
/// a module always sees its own names.
pub proof fn lemma_own_definition_resolves<T>(
    g: GraphView<T>,
    module: ModuleId,
    name: Symbol,
    visibility: Visibility,
    value: T,
)
    requires
        minted(g, module),
        g.modules[module.index() as int].entries.get(symbol_id(name)) == Some(
            Entry::Define { visibility, value },
        ),
    ensures
        resolution(g, module, name) == Ok::<T, ResolveError>(value),
{
}

/// An id that a graph did not mint (one of another graph, or one built by other
/// means) is refused by every operation with `UnknownModule`, and changes
/// nothing.
pub proof fn lemma_foreign_id_is_unknown<T>(
    g: GraphView<T>,
    foreign: ModuleId,
    other: ModuleId,
    name: Symbol,
    visibility: Visibility,
    value: T,
)
    requires
        !minted(g, foreign),
    ensures
        resolution(g, foreign, name) == Err::<T, ResolveError>(ResolveError::UnknownModule(foreign)),
        define_result(g, foreign, name) == Err::<(), ResolveError>(
            ResolveError::UnknownModule(foreign),
        ),
        after_define(g, foreign, name, visibility, value) == g,
        import_result(g, foreign, other, name) is Err,
        import_result(g, other, foreign, name) == Err::<(), ResolveError>(
            ResolveError::UnknownModule(foreign),
        ),
        after_import(g, foreign, other, name) == g,
        after_import(g, other, foreign, name) == g,
{
}

/// A name imported from a module that defines it publicly resolves to that
/// definition's payload.
pub proof fn lemma_import_reaches_public_definition<T>(
    g: GraphView<T>,
    module: ModuleId,
    from: ModuleId,
    name: Symbol,
    value: T,
)
    requires
        graph_wf(g),
        minted(g, module),
        g.modules[module.index() as int].entries.get(symbol_id(name)) == Some(
            Entry::<T>::Import { from },
        ),
        g.modules[from.index() as int].entries.get(symbol_id(name)) == Some(
            Entry::Define { visibility: Visibility::Public, value },
        ),
    ensures
        resolution(g, module, name) == Ok::<T, ResolveError>(value),
{
    assert(crate::model::edge_within(g, g.modules[module.index() as int].entries.get(symbol_id(name))));
    assert(from.raw() != module.raw());
    assert(!seq![(module.raw(), symbol_id(name))].contains((from.raw(), symbol_id(name))));
}

/// A name imported from a module that defines it privately is refused, and the
/// error names the module that holds the private definition.
pub proof fn lemma_import_of_private_is_refused<T>(
    g: GraphView<T>,
    module: ModuleId,
    from: ModuleId,
    name: Symbol,
    value: T,
)
    requires
        graph_wf(g),
        minted(g, module),
        g.modules[module.index() as int].entries.get(symbol_id(name)) == Some(
            Entry::<T>::Import { from },
        ),
        g.modules[from.index() as int].entries.get(symbol_id(name)) == Some(
            Entry::Define { visibility: Visibility::Private, value },
        ),
    ensures
        resolution(g, module, name) == Err::<T, ResolveError>(
            ResolveError::Private { module: from, name },
        ),
{
    assert(crate::model::edge_within(g, g.modules[module.index() as int].entries.get(symbol_id(name))));
    assert(from.raw() != module.raw());
    assert(!seq![(module.raw(), symbol_id(name))].contains((from.raw(), symbol_id(name))));
}

/// Two modules that import a name from each other (or one that imports it from
/// itself) form a cycle, reported at the module the lookup started from.
pub proof fn lemma_import_loop_is_a_cycle<T>(
    g: GraphView<T>,
    a: ModuleId,
    b: ModuleId,
    name: Symbol,
)
    requires
        graph_wf(g),
        minted(g, a),
        g.modules[a.index() as int].entries.get(symbol_id(name)) == Some(
            Entry::<T>::Import { from: b },
        ),
        g.modules[b.index() as int].entries.get(symbol_id(name)) == Some(
            Entry::<T>::Import { from: a },
        ),
    ensures
        resolution(g, a, name) == Err::<T, ResolveError>(
            ResolveError::ImportCycle { module: a, name },
        ),
{
    let key = symbol_id(name);
    assert(crate::model::edge_within(g, g.modules[a.index() as int].entries.get(key)));
    ModuleId::lemma_index_identifies(a, b);
    let first = seq![(a.raw(), key)];
    if a.raw() != b.raw() {
        let second = first.push((b.raw(), key));
        assert(!first.contains((b.raw(), key)));
        assert(second.contains((a.raw(), key))) by {
            assert(second[0] == (a.raw(), key));
        }
        assert(export_walk(g, a, name, second) == Err::<T, ResolveError>(
            ResolveError::ImportCycle { module: a, name },
        ));
        assert(export_walk(g, b, name, first) == export_walk(g, a, name, second));
    } else {
        assert(first.contains((b.raw(), key))) by {
            assert(first[0] == (b.raw(), key));
        }
    }
}

/// A walk that ends in a payload ends at a public definition of the name.
proof fn lemma_walk_found_is_public<T>(
    g: GraphView<T>,
    module: ModuleId,
    name: Symbol,
    visited: Seq<(u32, u32)>,
    value: T,
)
    requires
        export_walk(g, module, name, visited) == Ok::<T, ResolveError>(value),
    ensures
        exists|d: int|
            0 <= d < g.modules.len() && #[trigger] g.modules[d].entries.get(symbol_id(name))
                == Some(Entry::Define { visibility: Visibility::Public, value }),
    decreases room(g, symbol_id(name), visited),
{
    let pair = (module.raw(), symbol_id(name));
    if !visited.contains(pair) && minted(g, module) {
        let d = module.index() as int;
        match g.modules[d].entries.get(symbol_id(name)) {
            Some(Entry::Import { from }) => {
                lemma_room_shrinks(g, symbol_id(name), visited, module.raw());
                lemma_walk_found_is_public(g, from, name, visited.push(pair), value);
            },
            _ => {
                assert(g.modules[d].entries.get(symbol_id(name)) == Some(
                    Entry::Define { visibility: Visibility::Public, value },
                ));
            },
        }
    }
}

/// A private definition is never reached from outside its module: a name that a
/// module imports resolves, if at all, to the payload of a public definition.
pub proof fn lemma_imports_reach_only_public<T>(
    g: GraphView<T>,
    module: ModuleId,
    from: ModuleId,
    name: Symbol,
    value: T,
)
    requires
        minted(g, module),
        g.modules[module.index() as int].entries.get(symbol_id(name)) == Some(
            Entry::<T>::Import { from },
        ),
        resolution(g, module, name) == Ok::<T, ResolveError>(value),
    ensures
        exists|d: int|
            0 <= d < g.modules.len() && #[trigger] g.modules[d].entries.get(symbol_id(name))
                == Some(Entry::Define { visibility: Visibility::Public, value }),
{
    lemma_walk_found_is_public(g, from, name, seq![(module.raw(), symbol_id(name))], value);
}

/// A walk on a valid graph from one of its modules never reports a module as
/// unknown.
proof fn lemma_walk_stays_in_graph<T>(
    g: GraphView<T>,
    module: ModuleId,
    name: Symbol,
    visited: Seq<(u32, u32)>,
)
    requires
        graph_wf(g),
        minted(g, module),
    ensures
        !(export_walk(g, module, name, visited) is Err && export_walk(
            g,
            module,
            name,
            visited,
        )->Err_0 is UnknownModule),
    decreases room(g, symbol_id(name), visited),
{
    let key = symbol_id(name);
    let pair = (module.raw(), key);
    if !visited.contains(pair) {
        let d = module.index() as int;
        if let Some(Entry::Import { from }) = g.modules[d].entries.get(key) {
            assert(crate::model::edge_within(g, g.modules[d].entries.get(key)));
            lemma_room_shrinks(g, key, visited, module.raw());
            lemma_walk_stays_in_graph(g, from, name, visited.push(pair));
        }
    }
}

/// Resolution from a module a valid graph minted never answers `UnknownModule`:
/// that error is kept for ids the graph did not mint.
pub proof fn lemma_known_module_is_never_unknown<T>(
    g: GraphView<T>,
    module: ModuleId,
    name: Symbol,
)
    requires
        graph_wf(g),
        minted(g, module),
    ensures
        !(resolution(g, module, name) is Err && resolution(g, module, name)->Err_0 is UnknownModule),
{
    let key = symbol_id(name);
    if let Some(Entry::Import { from }) = g.modules[module.index() as int].entries.get(key) {
        assert(crate::model::edge_within(g, g.modules[module.index() as int].entries.get(key)));
        lemma_walk_stays_in_graph(g, from, name, seq![(module.raw(), key)]);
    }
}

/// Defining a name that a module does not declare yet makes it resolve there to
/// the new payload at once, and declares it, so that a second definition of the
/// name in that module, or an import of it into that module, is refused as a
/// duplicate.
pub proof fn lemma_define_then_resolve<T>(
    g: GraphView<T>,
    module: ModuleId,
    from: ModuleId,
    name: Symbol,
    visibility: Visibility,
    value: T,
    other_visibility: Visibility,
    other_value: T,
)
    requires
        graph_wf(g),
        minted(g, module),
        minted(g, from),
        !declares(g, module, name),
    ensures
        define_result(g, module, name) == Ok::<(), ResolveError>(()),
        resolution(after_define(g, module, name, visibility, value), module, name) == Ok::<
            T,
            ResolveError,
        >(value),
        define_result(after_define(g, module, name, visibility, value), module, name) == Err::<
            (),
            ResolveError,
        >(ResolveError::DuplicateName { module, name }),
        after_define(
            after_define(g, module, name, visibility, value),
            module,
            name,
            other_visibility,
            other_value,
        ) == after_define(g, module, name, visibility, value),
        import_result(after_define(g, module, name, visibility, value), module, from, name)
            == Err::<(), ResolveError>(ResolveError::DuplicateName { module, name }),
{
}

/// A walk sees the same graph after a module is appended.
proof fn lemma_walk_ignores_new_module<T>(
    g: GraphView<T>,
    new_name: Symbol,
    new_source: SourceId,
    module: ModuleId,
    name: Symbol,
    visited: Seq<(u32, u32)>,
)
    requires
        graph_wf(g),
        minted(g, module),
    ensures
        export_walk(with_module(g, new_name, new_source), module, name, visited) == export_walk(
            g,
            module,
            name,
            visited,
        ),
    decreases room(g, symbol_id(name), visited),
{
    let g2 = with_module(g, new_name, new_source);
    let key = symbol_id(name);
    let pair = (module.raw(), key);
    if !visited.contains(pair) {
        let d = module.index() as int;
        assert(g2.modules[d] == g.modules[d]);
        if let Some(Entry::Import { from }) = g.modules[d].entries.get(key) {
            assert(crate::model::edge_within(g, g.modules[d].entries.get(key)));
            lemma_room_shrinks(g, key, visited, module.raw());
            lemma_walk_ignores_new_module(g, new_name, new_source, from, name, visited.push(pair));
        }
    }
}

/// Adding a module changes nothing about the modules already there: their ids
/// still name them, their names and sources stay, and so does what every name
/// resolves to from them.
pub proof fn lemma_new_module_keeps_resolutions<T>(
    g: GraphView<T>,
    new_name: Symbol,
    new_source: SourceId,
    module: ModuleId,
    name: Symbol,
)
    requires
        graph_wf(g),
        minted(g, module),
    ensures
        minted(with_module(g, new_name, new_source), module),
        with_module(g, new_name, new_source).modules[module.index() as int] == g.modules[module.index() as int],
        resolution(with_module(g, new_name, new_source), module, name) == resolution(
            g,
            module,
            name,
        ),
{
    let g2 = with_module(g, new_name, new_source);
    let d = module.index() as int;
    let key = symbol_id(name);
    assert(g2.modules[d] == g.modules[d]);
    if let Some(Entry::Import { from }) = g.modules[d].entries.get(key) {
        assert(crate::model::edge_within(g, g.modules[d].entries.get(key)));
        lemma_walk_ignores_new_module(g, new_name, new_source, from, name, seq![(module.raw(), key)]);
    }
}

/// A walk for one name does not see entries added under another key.
proof fn lemma_walk_ignores_other_names<T>(
    g: GraphView<T>,
    m: int,
    key: u32,
    e: Entry<T>,
    module: ModuleId,
    name: Symbol,
    visited: Seq<(u32, u32)>,
)
    requires
        0 <= m < g.modules.len(),
        symbol_id(name) != key,
    ensures
        export_walk(with_entry(g, m, key, e), module, name, visited) == export_walk(
            g,
            module,
            name,
            visited,
        ),
    decreases room(g, symbol_id(name), visited),
{
    let g2 = with_entry(g, m, key, e);
    let k = symbol_id(name);
    let pair = (module.raw(), k);
    if !visited.contains(pair) && minted(g, module) {
        let d = module.index() as int;
        assert(g2.modules[d].entries.get(k) == g.modules[d].entries.get(k));
        if let Some(Entry::Import { from }) = g.modules[d].entries.get(k) {
            lemma_room_shrinks(g, k, visited, module.raw());
            lemma_walk_ignores_other_names(g, m, key, e, from, name, visited.push(pair));
        }
    }
}

/// Declaring one name, by definition or import, changes nothing that a name
/// with another symbol id resolves to, from any module. (`Symbol::as_u32` gives
/// distinct symbols distinct ids, so this covers every other name.)
pub proof fn lemma_declaring_leaves_other_names<T>(
    g: GraphView<T>,
    m: int,
    key: u32,
    e: Entry<T>,
    module: ModuleId,
    name: Symbol,
)
    requires
        0 <= m < g.modules.len(),
        symbol_id(name) != key,
    ensures
        resolution(with_entry(g, m, key, e), module, name) == resolution(g, module, name),
{
    let g2 = with_entry(g, m, key, e);
    let k = symbol_id(name);
    if minted(g, module) {
        let d = module.index() as int;
        assert(g2.modules[d].entries.get(k) == g.modules[d].entries.get(k));
        if let Some(Entry::Import { from }) = g.modules[d].entries.get(k) {
            lemma_walk_ignores_other_names(g, m, key, e, from, name, seq![(module.raw(), k)]);
        }
    }
}

/// One declaration: a definition or an import, as `define` and `import` make it.
pub enum Declaration<T> {
    Define { module: ModuleId, name: Symbol, visibility: Visibility, value: T },
    Import { into: ModuleId, from: ModuleId, name: Symbol },
}

impl<T> Declaration<T> {
    /// The module the declaration adds a name to.
    pub open spec fn target(self) -> ModuleId {
        match self {
            Declaration::Define { module, .. } => module,
            Declaration::Import { into, .. } => into,
        }
    }

    /// The name the declaration adds.
    pub open spec fn name(self) -> Symbol {
        match self {
            Declaration::Define { name, .. } => name,
            Declaration::Import { name, .. } => name,
        }
    }

    /// The graph after the declaration: unchanged where it is refused.
    pub open spec fn apply(self, g: GraphView<T>) -> GraphView<T> {
        match self {
            Declaration::Define { module, name, visibility, value } => after_define(
                g,
                module,
                name,
                visibility,
                value,
            ),
            Declaration::Import { into, from, name } => after_import(g, into, from, name),
        }
    }

    /// Whether the declaration succeeds on `g`.
    pub open spec fn succeeds(self, g: GraphView<T>) -> bool {
        match self {
            Declaration::Define { module, name, .. } => define_result(g, module, name) is Ok,
            Declaration::Import { into, from, name } => import_result(g, into, from, name) is Ok,
        }
    }
}

/// What a declaration does to a graph: adds its entry where it succeeds, and
/// whether it succeeds depends only on the tag, the module count and whether the
/// target already declares the name.
proof fn lemma_apply_shape<T>(g: GraphView<T>, d: Declaration<T>)
    ensures
        d.succeeds(g) ==> minted(g, d.target()) && !declares(g, d.target(), d.name()),
        d.apply(g).tag == g.tag,
        d.apply(g).modules.len() == g.modules.len(),
        d.succeeds(g) ==> d.apply(g) == with_entry(
            g,
            d.target().index() as int,
            symbol_id(d.name()),
            match d {
                Declaration::Define { visibility, value, .. } => Entry::Define { visibility, value },
                Declaration::Import { from, .. } => Entry::Import { from },
            },
        ),
        !d.succeeds(g) ==> d.apply(g) == g,
{
}

/// Two declarations that add names to different places (another module, or
/// another name) give the same graph in either order, and each succeeds in one
/// order exactly when it does in the other: the order in which declarations are
/// made does not change what the graph resolves.
pub proof fn lemma_declarations_commute<T>(g: GraphView<T>, d1: Declaration<T>, d2: Declaration<T>)
    requires
        d1.target() != d2.target() || symbol_id(d1.name()) != symbol_id(d2.name()),
    ensures
        d2.succeeds(d1.apply(g)) == d2.succeeds(g),
        d1.succeeds(d2.apply(g)) == d1.succeeds(g),
        d2.apply(d1.apply(g)) == d1.apply(d2.apply(g)),
{
    let t1 = d1.target();
    let t2 = d2.target();
    let k1 = symbol_id(d1.name());
    let k2 = symbol_id(d2.name());
    ModuleId::lemma_index_identifies(t1, t2);
    lemma_apply_shape(g, d1);
    lemma_apply_shape(g, d2);
    lemma_apply_shape(d1.apply(g), d2);
    lemma_apply_shape(d2.apply(g), d1);
    if d1.succeeds(g) && d2.succeeds(g) {
        let g12 = d2.apply(d1.apply(g));
        let g21 = d1.apply(d2.apply(g));
        assert(g12.modules =~= g21.modules) by {
            assert forall|i: int| 0 <= i < g.modules.len() implies g12.modules[i]
                == g21.modules[i] by {
                if i == t1.index() && i == t2.index() {
                    assert(g12.modules[i].entries =~= g21.modules[i].entries);
                }
            }
        }
    }
}

/// One step of building a graph: adding a module, or a declaration.
pub enum Step<T> {
    AddModule { name: Symbol, source: SourceId },
    Declare(Declaration<T>),
}

/// The graph after one step.
pub open spec fn apply_step<T>(g: GraphView<T>, s: Step<T>) -> GraphView<T> {
    match s {
        Step::AddModule { name, source } => with_module(g, name, source),
        Step::Declare(d) => d.apply(g),
    }
}

/// The graph after the steps, in order.
pub open spec fn replay<T>(g: GraphView<T>, steps: Seq<Step<T>>) -> GraphView<T>
    decreases steps.len(),
{
    if steps.len() == 0 {
        g
    } else {
        apply_step(replay(g, steps.drop_last()), steps.last())
    }
}

/// The name and source of each module the steps add, in order.
pub open spec fn added_modules<T>(steps: Seq<Step<T>>) -> Seq<(Symbol, SourceId)>
    decreases steps.len(),
{
    if steps.len() == 0 {
        Seq::empty()
    } else {
        match steps.last() {
            Step::AddModule { name, source } => added_modules(steps.drop_last()).push((name, source)),
            Step::Declare(_) => added_modules(steps.drop_last()),
        }
    }
}

/// A graph built from an empty one holds exactly the modules that were added, in
/// the order they were added, each with the name and source it was added with;
/// declarations, successful or refused, add none and rename none. So the id that
/// the k-th `add_module` returns has index k, ids are distinct, and `len` counts
/// the modules added.
pub proof fn lemma_replay_holds_added_modules<T>(tag: u64, steps: Seq<Step<T>>)
    ensures
        replay(empty_graph(tag), steps).tag == tag,
        replay(empty_graph(tag), steps).modules.len() == added_modules(steps).len(),
        forall|i: int|
            0 <= i < added_modules(steps).len() ==> {
                &&& (#[trigger] replay(empty_graph(tag), steps).modules[i]).name
                    == added_modules(steps)[i].0
                &&& replay(empty_graph(tag), steps).modules[i].source == added_modules(steps)[i].1
            },
    decreases steps.len(),
{
    if steps.len() > 0 {
        let before = replay(empty_graph::<T>(tag), steps.drop_last());
        lemma_replay_holds_added_modules(tag, steps.drop_last());
        match steps.last() {
            Step::AddModule { name, source } => {},
            Step::Declare(d) => {
                lemma_apply_shape(before, d);
                let after = d.apply(before);
                assert forall|i: int| 0 <= i < before.modules.len() implies after.modules[i].name
                    == before.modules[i].name && after.modules[i].source
                    == before.modules[i].source by {
                    if d.succeeds(before) && i == d.target().index() {
                    }
                }
            },
        }
    }
}

/// Swapping two neighbouring declarations that add names to different places,
/// anywhere in a sequence of steps, leaves the built graph as it was: by repeated
/// swaps, any order of such declarations builds the same graph, so it resolves
/// every name alike.
pub proof fn lemma_swap_declarations_in_replay<T>(
    g: GraphView<T>,
    before: Seq<Step<T>>,
    d1: Declaration<T>,
    d2: Declaration<T>,
    after: Seq<Step<T>>,
)
    requires
        d1.target() != d2.target() || symbol_id(d1.name()) != symbol_id(d2.name()),
    ensures
        replay(g, before + seq![Step::Declare(d1), Step::Declare(d2)] + after) == replay(
            g,
            before + seq![Step::Declare(d2), Step::Declare(d1)] + after,
        ),
    decreases after.len(),
{
    let s12 = before + seq![Step::Declare(d1), Step::Declare(d2)];
    let s21 = before + seq![Step::Declare(d2), Step::Declare(d1)];
    if after.len() == 0 {
        assert(s12 + after =~= s12);
        assert(s21 + after =~= s21);
        assert(s12.drop_last().drop_last() =~= before);
        assert(s21.drop_last().drop_last() =~= before);
        assert(s12.drop_last() =~= before.push(Step::Declare(d1)));
        assert(s21.drop_last() =~= before.push(Step::Declare(d2)));
        assert(before.push(Step::Declare(d1)).drop_last() =~= before);
        assert(before.push(Step::Declare(d2)).drop_last() =~= before);
        let base = replay(g, before);
        assert(replay(g, before.push(Step::Declare(d1))) == d1.apply(base));
        assert(replay(g, before.push(Step::Declare(d2))) == d2.apply(base));
        assert(replay(g, s12) == d2.apply(d1.apply(base)));
        assert(replay(g, s21) == d1.apply(d2.apply(base)));
        lemma_declarations_commute(base, d1, d2);
    } else {
        lemma_swap_declarations_in_replay(g, before, d1, d2, after.drop_last());
        assert((s12 + after).drop_last() =~= s12 + after.drop_last());
        assert((s21 + after).drop_last() =~= s21 + after.drop_last());
        assert((s12 + after).last() == after.last());
        assert((s21 + after).last() == after.last());
        assert(replay(g, s12 + after) == apply_step(replay(g, s12 + after.drop_last()), after.last()));
        assert(replay(g, s21 + after) == apply_step(replay(g, s21 + after.drop_last()), after.last()));
    }
}

/// The ids the `add_module` steps return, in order, as (graph tag, index) pairs:
/// `add_module` gives the graph's tag and its module count before the call.
pub open spec fn issued_ids<T>(g: GraphView<T>, steps: Seq<Step<T>>) -> Seq<(u64, nat)>
    decreases steps.len(),
{
    if steps.len() == 0 {
        Seq::empty()
    } else {
        let before = replay(g, steps.drop_last());
        match steps.last() {
            Step::AddModule { .. } => issued_ids(g, steps.drop_last()).push(
                (before.tag, before.modules.len()),
            ),
            Step::Declare(_) => issued_ids(g, steps.drop_last()),
        }
    }
}

/// On a graph built from an empty one, the k-th `add_module` returns the id with
/// index k and the graph's tag, whatever declarations come between; so the ids
/// are pairwise distinct, and there are as many as the graph has modules.
pub proof fn lemma_successive_ids<T>(tag: u64, steps: Seq<Step<T>>)
    ensures
        issued_ids(empty_graph(tag), steps).len() == replay(empty_graph(tag), steps).modules.len(),
        forall|i: int|
            0 <= i < issued_ids(empty_graph(tag), steps).len() ==> #[trigger] issued_ids(
                empty_graph(tag),
                steps,
            )[i] == (tag, i as nat),
        forall|i: int, j: int|
            0 <= i < issued_ids(empty_graph(tag), steps).len() && 0 <= j < issued_ids(
                empty_graph(tag),
                steps,
            ).len() && i != j ==> #[trigger] issued_ids(empty_graph(tag), steps)[i]
                != #[trigger] issued_ids(empty_graph(tag), steps)[j],
    decreases steps.len(),
{
    lemma_replay_holds_added_modules(tag, steps);
    if steps.len() > 0 {
        lemma_successive_ids(tag, steps.drop_last());
        lemma_replay_holds_added_modules(tag, steps.drop_last());
        let before = replay(empty_graph::<T>(tag), steps.drop_last());
        if let Step::Declare(d) = steps.last() {
            lemma_apply_shape(before, d);
        }
    }
    let ids = issued_ids(empty_graph::<T>(tag), steps);
    assert forall|i: int, j: int| 0 <= i < ids.len() && 0 <= j < ids.len() && i != j implies #[trigger] ids[i]
        != #[trigger] ids[j] by {
        assert(ids[i] == (tag, i as nat));
        assert(ids[j] == (tag, j as nat));
    }
}

/// Each module of `chain` but the last is a module of `g` that imports the name
/// with id `key` from the next one.
pub open spec fn imports_along<T>(g: GraphView<T>, chain: Seq<ModuleId>, key: u32) -> bool {
    forall|i: int|
        0 <= i < chain.len() - 1 ==> minted(g, #[trigger] chain[i]) && g.modules[chain[i].index() as int].entries.get(key)
            == Some(Entry::<T>::Import { from: chain[i + 1] })
}

/// The `(module index, key)` pairs of the modules of `chain`, in order.
pub open spec fn chain_pairs(chain: Seq<ModuleId>, key: u32) -> Seq<(u32, u32)> {
    chain.map_values(|m: ModuleId| (m.raw(), key))
}

/// Walking an import chain of distinct, unvisited modules is walking on from its
/// last module, with the modules before it visited.
proof fn lemma_walk_along<T>(
    g: GraphView<T>,
    chain: Seq<ModuleId>,
    name: Symbol,
    visited: Seq<(u32, u32)>,
)
    requires
        chain.len() >= 1,
        imports_along(g, chain, symbol_id(name)),
        forall|i: int| 0 <= i < chain.len() ==> !visited.contains((#[trigger] chain[i].raw(), symbol_id(name))),
        forall|i: int, j: int|
            0 <= i < j < chain.len() ==> #[trigger] chain[i].raw() != #[trigger] chain[j].raw(),
    ensures
        export_walk(g, chain[0], name, visited) == export_walk(
            g,
            chain.last(),
            name,
            visited + chain_pairs(chain.drop_last(), symbol_id(name)),
        ),
    decreases chain.len(),
{
    let key = symbol_id(name);
    if chain.len() == 1 {
        assert(visited + chain_pairs(chain.drop_last(), key) =~= visited);
    } else {
        let p0 = (chain[0].raw(), key);
        let rest = chain.drop_first();
        let v1 = visited.push(p0);
        assert(minted(g, chain[0]));
        assert(!visited.contains(p0));
        assert(export_walk(g, chain[0], name, visited) == export_walk(g, chain[1], name, v1));
        assert forall|i: int| 0 <= i < rest.len() - 1 implies minted(g, #[trigger] rest[i])
            && g.modules[rest[i].index() as int].entries.get(key) == Some(
            Entry::<T>::Import { from: rest[i + 1] },
        ) by {
            assert(rest[i] == chain[i + 1]);
            assert(rest[i + 1] == chain[i + 2]);
        }
        assert forall|i: int| 0 <= i < rest.len() implies !v1.contains(
            (#[trigger] rest[i].raw(), key),
        ) by {
            assert(rest[i] == chain[i + 1]);
            assert(chain[0].raw() != chain[i + 1].raw());
            if v1.contains((rest[i].raw(), key)) {
                let k = choose|k: int| 0 <= k < v1.len() && v1[k] == (rest[i].raw(), key);
                if k < visited.len() {
                    assert(visited[k] == v1[k]);
                    assert(visited.contains((chain[i + 1].raw(), key)));
                }
            }
        }
        assert forall|i: int, j: int| 0 <= i < j < rest.len() implies #[trigger] rest[i].raw()
            != #[trigger] rest[j].raw() by {
            assert(rest[i] == chain[i + 1] && rest[j] == chain[j + 1]);
        }
        lemma_walk_along(g, rest, name, v1);
        assert(rest.last() == chain.last());
        assert(v1 + chain_pairs(rest.drop_last(), key) =~= visited + chain_pairs(
            chain.drop_last(),
            key,
        ));
    }
}

/// In an import chain that ends at a module which does not import the name, no
/// module occurs twice.
proof fn lemma_chain_is_simple<T>(g: GraphView<T>, chain: Seq<ModuleId>, key: u32, i: int, j: int)
    requires
        graph_wf(g),
        chain.len() >= 1,
        imports_along(g, chain, key),
        minted(g, chain.last()),
        !(g.modules[chain.last().index() as int].entries.get(key) matches Some(Entry::Import { .. })),
        0 <= i < j < chain.len(),
    ensures
        chain[i].raw() != chain[j].raw(),
    decreases chain.len() - j,
{
    if chain[i].raw() == chain[j].raw() {
        ModuleId::lemma_index_identifies(chain[i], chain[j]);
        if j < chain.len() - 1 {
            assert(minted(g, chain[i]) && minted(g, chain[j]));
            assert(chain[i] == chain[j]);
            assert(chain[i + 1] == chain[j + 1]);
            lemma_chain_is_simple(g, chain, key, i + 1, j + 1);
        } else {
            assert(minted(g, chain[i]));
            assert(chain[i] == chain[j]);
        }
    }
}

/// Resolution follows an import chain to its end and answers there: where each
/// module of `chain` imports the name from the next, resolving it from the first
/// gives the payload of a public definition in the last module, or `Private`
/// naming the last module if that definition is private, or `Unresolved` naming
/// the last module if it declares the name not at all.
pub proof fn lemma_import_chain_answers_at_its_end<T>(
    g: GraphView<T>,
    chain: Seq<ModuleId>,
    name: Symbol,
)
    requires
        graph_wf(g),
        chain.len() >= 2,
        imports_along(g, chain, symbol_id(name)),
    ensures
        g.modules[chain.last().index() as int].entries.get(symbol_id(name)) is None ==> resolution(
            g,
            chain[0],
            name,
        ) == Err::<T, ResolveError>(ResolveError::Unresolved { module: chain.last(), name }),
        g.modules[chain.last().index() as int].entries.get(symbol_id(name)) matches Some(
            Entry::Define { visibility: Visibility::Public, value },
        ) ==> resolution(g, chain[0], name) == Ok::<T, ResolveError>(value),
        g.modules[chain.last().index() as int].entries.get(symbol_id(name)) matches Some(
            Entry::Define { visibility: Visibility::Private, .. },
        ) ==> resolution(g, chain[0], name) == Err::<T, ResolveError>(
            ResolveError::Private { module: chain.last(), name },
        ),
{
    let key = symbol_id(name);
    let k = chain.len() - 1;
    assert(minted(g, chain[k - 1]));
    assert(crate::model::edge_within(g, g.modules[chain[k - 1].index() as int].entries.get(key)));
    let last = chain.last();
    assert(minted(g, last));
    if !(g.modules[last.index() as int].entries.get(key) matches Some(Entry::Import { .. })) {
        assert forall|i: int, j: int| 0 <= i < j < chain.len() implies #[trigger] chain[i].raw()
            != #[trigger] chain[j].raw() by {
            lemma_chain_is_simple(g, chain, key, i, j);
        }
        let rest = chain.drop_first();
        let v0 = seq![(chain[0].raw(), key)];
        assert(minted(g, chain[0]));
        assert(resolution(g, chain[0], name) == export_walk(g, chain[1], name, v0));
        assert forall|i: int| 0 <= i < rest.len() - 1 implies minted(g, #[trigger] rest[i])
            && g.modules[rest[i].index() as int].entries.get(key) == Some(
            Entry::<T>::Import { from: rest[i + 1] },
        ) by {
            assert(rest[i] == chain[i + 1]);
            assert(rest[i + 1] == chain[i + 2]);
        }
        assert forall|i: int| 0 <= i < rest.len() implies !v0.contains(
            (#[trigger] rest[i].raw(), key),
        ) by {
            assert(rest[i] == chain[i + 1]);
            assert(chain[0].raw() != chain[i + 1].raw());
            assert(v0[0] == (chain[0].raw(), key));
        }
        assert forall|i: int, j: int| 0 <= i < j < rest.len() implies #[trigger] rest[i].raw()
            != #[trigger] rest[j].raw() by {
            assert(rest[i] == chain[i + 1] && rest[j] == chain[j + 1]);
        }
        lemma_walk_along(g, rest, name, v0);
        let v = v0 + chain_pairs(rest.drop_last(), key);
        assert(rest.last() == last);
        assert(!v.contains((last.raw(), key))) by {
            if v.contains((last.raw(), key)) {
                let q = choose|q: int| 0 <= q < v.len() && v[q] == (last.raw(), key);
                if q == 0 {
                    assert(chain[0].raw() != chain[k].raw());
                } else {
                    assert(v[q] == (rest[q - 1].raw(), key));
                    assert(rest[q - 1] == chain[q]);
                    assert(chain[q].raw() != chain[k].raw());
                }
            }
        }
    }
}

/// An import chain of distinct modules whose last module imports the name back
/// from one of them is a cycle, reported at that module.
pub proof fn lemma_import_chain_loop_is_a_cycle<T>(
    g: GraphView<T>,
    chain: Seq<ModuleId>,
    name: Symbol,
    j: int,
)
    requires
        graph_wf(g),
        chain.len() >= 1,
        imports_along(g, chain, symbol_id(name)),
        minted(g, chain.last()),
        forall|a: int, b: int|
            0 <= a < b < chain.len() ==> #[trigger] chain[a].raw() != #[trigger] chain[b].raw(),
        0 <= j < chain.len(),
        g.modules[chain.last().index() as int].entries.get(symbol_id(name)) == Some(
            Entry::<T>::Import { from: chain[j] },
        ),
    ensures
        resolution(g, chain[0], name) == Err::<T, ResolveError>(
            ResolveError::ImportCycle { module: chain[j], name },
        ),
{
    let key = symbol_id(name);
    let k = chain.len() - 1;
    let last = chain.last();
    let full = chain.push(chain[j]);
    let p = chain_pairs(chain, key);
    if chain.len() == 1 {
        assert(chain[j] == chain[0]);
        assert(seq![(chain[0].raw(), key)].contains((chain[0].raw(), key))) by {
            assert(seq![(chain[0].raw(), key)][0] == (chain[0].raw(), key));
        }
    } else {
        let rest = chain.drop_first();
        let v0 = seq![(chain[0].raw(), key)];
        assert(minted(g, chain[0]));
        assert(resolution(g, chain[0], name) == export_walk(g, chain[1], name, v0));
        assert forall|i: int| 0 <= i < rest.len() - 1 implies minted(g, #[trigger] rest[i])
            && g.modules[rest[i].index() as int].entries.get(key) == Some(
            Entry::<T>::Import { from: rest[i + 1] },
        ) by {
            assert(rest[i] == chain[i + 1]);
            assert(rest[i + 1] == chain[i + 2]);
        }
        assert forall|i: int| 0 <= i < rest.len() implies !v0.contains(
            (#[trigger] rest[i].raw(), key),
        ) by {
            assert(rest[i] == chain[i + 1]);
            assert(chain[0].raw() != chain[i + 1].raw());
            assert(v0[0] == (chain[0].raw(), key));
        }
        assert forall|a: int, b: int| 0 <= a < b < rest.len() implies #[trigger] rest[a].raw()
            != #[trigger] rest[b].raw() by {
            assert(rest[a] == chain[a + 1] && rest[b] == chain[b + 1]);
        }
        lemma_walk_along(g, rest, name, v0);
        let v = v0 + chain_pairs(rest.drop_last(), key);
        assert(v =~= p.drop_last());
        assert(rest.last() == last);
        assert(!v.contains((last.raw(), key))) by {
            if v.contains((last.raw(), key)) {
                let q = choose|q: int| 0 <= q < v.len() && v[q] == (last.raw(), key);
                assert(p[q] == (chain[q].raw(), key));
            }
        }
        let v2 = v.push((last.raw(), key));
        assert(v2 =~= p);
        assert(export_walk(g, last, name, v) == export_walk(g, chain[j], name, v2));
        assert(v2.contains((chain[j].raw(), key))) by {
            assert(p[j] == (chain[j].raw(), key));
        }
    }
}

/// A module just added declares nothing: every name is unresolved from it, and
/// defining any name in it succeeds. Its display name plays no part in
/// resolution.
pub proof fn lemma_new_module_is_empty<T>(
    g: GraphView<T>,
    name: Symbol,
    source: SourceId,
    id: ModuleId,
    n: Symbol,
)
    requires
        graph_wf(g),
        id.graph() == g.tag,
        id.index() == g.modules.len(),
    ensures
        minted(with_module(g, name, source), id),
        with_module(g, name, source).modules[id.index() as int].name == name,
        with_module(g, name, source).modules[id.index() as int].source == source,
        !declares(with_module(g, name, source), id, n),
        resolution(with_module(g, name, source), id, n) == Err::<T, ResolveError>(
            ResolveError::Unresolved { module: id, name: n },
        ),
        define_result(with_module(g, name, source), id, n) == Ok::<(), ResolveError>(()),
{
    let g2 = with_module(g, name, source);
    assert(g2.modules[id.index() as int].entries == Map::<u32, Entry<T>>::empty());
}

/// Two answers of a resolution that agree up to cloning: the same error, or
/// payloads of which the second is a clone of the first.
pub open spec fn answers_alike<T: Clone>(r1: Result<T, ResolveError>, r2: Result<T, ResolveError>) -> bool {
    match (r1, r2) {
        (Ok(x), Ok(y)) => vstd::pervasive::cloned(x, y),
        (Err(e1), Err(e2)) => e1 == e2,
        _ => false,
    }
}

/// A walk on a clone answers as the same walk on the original.
proof fn lemma_walk_on_clone<T: Clone>(
    a: GraphView<T>,
    b: GraphView<T>,
    module: ModuleId,
    name: Symbol,
    visited: Seq<(u32, u32)>,
)
    requires
        graph_cloned(a, b),
    ensures
        answers_alike(export_walk(a, module, name, visited), export_walk(b, module, name, visited)),
    decreases room(a, symbol_id(name), visited),
{
    let key = symbol_id(name);
    let pair = (module.raw(), key);
    if !visited.contains(pair) && minted(a, module) {
        let d = module.index() as int;
        let ma = a.modules[d];
        let mb = b.modules[d];
        assert(module_cloned(ma, mb));
        if ma.entries.contains_key(key) {
            assert(mb.entries.contains_key(key));
            assert(entry_cloned(ma.entries[key], mb.entries[key]));
            if let Entry::Import { from } = ma.entries[key] {
                lemma_room_shrinks(a, key, visited, module.raw());
                lemma_walk_on_clone(a, b, from, name, visited.push(pair));
            }
        } else {
            assert(!mb.entries.dom().contains(key));
        }
    }
}

/// A clone of a graph holds the same modules at the same places: every id the
/// graph minted is minted by the clone and names a module with the same name and
/// source, and every name resolves from it as in the graph, to the same error
/// or to a clone of the same payload.
pub proof fn lemma_clone_keeps_ids<T: Clone>(
    a: GraphView<T>,
    b: GraphView<T>,
    q: ModuleId,
    n: Symbol,
)
    requires
        graph_cloned(a, b),
    ensures
        minted(a, q) == minted(b, q),
        minted(a, q) ==> b.modules[q.index() as int].name == a.modules[q.index() as int].name
            && b.modules[q.index() as int].source == a.modules[q.index() as int].source
            && b.modules[q.index() as int].entries.dom() == a.modules[q.index() as int].entries.dom(),
        answers_alike(resolution(a, q, n), resolution(b, q, n)),
{
    let key = symbol_id(n);
    if minted(a, q) {
        let d = q.index() as int;
        let ma = a.modules[d];
        let mb = b.modules[d];
        assert(module_cloned(ma, mb));
        if ma.entries.contains_key(key) {
            assert(mb.entries.contains_key(key));
            assert(entry_cloned(ma.entries[key], mb.entries[key]));
            if let Entry::Import { from } = ma.entries[key] {
                lemma_walk_on_clone(a, b, from, n, seq![(q.raw(), key)]);
            }
        } else {
            assert(!mb.entries.dom().contains(key));
        }
    }
}

/// A name that a module of the graph does not declare is unresolved from it,
/// and the error names that module.
pub proof fn lemma_undeclared_name_is_unresolved<T>(g: GraphView<T>, module: ModuleId, name: Symbol)
    requires
        minted(g, module),
        !declares(g, module, name),
    ensures
        resolution(g, module, name) == Err::<T, ResolveError>(
            ResolveError::Unresolved { module, name },
        ),
{
}

/// Importing a name that a module does not declare yet, from a module of the
/// graph, succeeds and records exactly that edge: the importing module now
/// declares the name as an import from `from`, every other entry and module
/// stays as it was, and the name resolves from `into` as it does along the edge.
pub proof fn lemma_import_records_edge<T>(
    g: GraphView<T>,
    into: ModuleId,
    from: ModuleId,
    name: Symbol,
)
    requires
        graph_wf(g),
        minted(g, into),
        minted(g, from),
        !declares(g, into, name),
    ensures
        import_result(g, into, from, name) == Ok::<(), ResolveError>(()),
        after_import(g, into, from, name).tag == g.tag,
        after_import(g, into, from, name).modules.len() == g.modules.len(),
        after_import(g, into, from, name).modules[into.index() as int].entries.get(symbol_id(name))
            == Some(Entry::<T>::Import { from }),
        forall|i: int, k: u32|
            0 <= i < g.modules.len() && (i != into.index() || k != symbol_id(name))
                ==> #[trigger] after_import(g, into, from, name).modules[i].entries.get(k)
                == g.modules[i].entries.get(k),
{
    let g2 = after_import(g, into, from, name);
    assert forall|i: int, k: u32|
        0 <= i < g.modules.len() && (i != into.index() || k != symbol_id(name)) implies #[trigger] g2.modules[i].entries.get(k)
        == g.modules[i].entries.get(k) by {
        if i == into.index() {
            assert(g2.modules[i].entries == g.modules[i].entries.insert(
                symbol_id(name),
                Entry::Import { from },
            ));
        }
    }
}

} // verus!
