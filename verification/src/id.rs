//! Stable handles identifying a module within a graph.

use core::cmp::Ordering;

use vstd::prelude::*;
use vstd::std_specs::cmp::{PartialOrdSpec, PartialOrdSpecImpl};

verus! {

/// A small, copyable handle to one module in a `ModuleGraph`.
///
/// The handle holds the module's insertion order, starting at `0`, and the tag
/// of the graph that minted it. Modules are only ever appended to a graph, so an
/// id keeps naming the same module for the life of the graph. An id minted by a
/// different graph (whose tag differs), or one built by other means, names no
/// module of a graph: the graph answers it with `ResolveError::UnknownModule`,
/// never with another module's data or an out-of-bounds read.
///
/// Ids order by their index first, then by their graph's tag.
#[derive(Clone, Copy, Debug, PartialEq, Eq, Structural, Ord, Hash)]
pub struct ModuleId {
    pub(crate) index: u32,
    pub(crate) graph: u64,
}

impl ModuleId {
    /// The insertion index this id wraps, as a `u32`.
    pub closed spec fn raw(self) -> u32 {
        self.index
    }

    /// The insertion index this id wraps.
    pub open spec fn index(self) -> nat {
        self.raw() as nat
    }

    /// The tag of the graph that minted this id; `0` for an id no graph minted.
    pub closed spec fn graph(self) -> u64 {
        self.graph
    }

    /// Two ids are the same exactly when they hold the same index and tag.
    pub proof fn lemma_index_identifies(a: ModuleId, b: ModuleId)
        ensures
            (a.raw() == b.raw() && a.graph() == b.graph()) == (a == b),
    {
    }

    /// Mints the id of the module at `index` in the graph tagged `graph`.
    pub(crate) fn new_in(graph: u64, index: u32) -> (id: Self)
        ensures
            id.raw() == index,
            id.graph() == graph,
    {
        ModuleId { index, graph }
    }

    /// Wraps a raw index in an id that no graph minted: every graph answers it
    /// with `ResolveError::UnknownModule`.
    pub fn from_index(index: u32) -> (id: Self)
        ensures
            id.raw() == index,
            id.graph() == 0,
    {
        ModuleId { index, graph: 0 }
    }

    /// Rebuilds an id from the index and graph tag it held (as `to_u32` and
    /// `graph_tag` return them), for an id that was stored elsewhere.
    pub fn from_parts(graph: u64, index: u32) -> (id: Self)
        ensures
            id.raw() == index,
            id.graph() == graph,
    {
        ModuleId { index, graph }
    }

    /// The index into the graph's module list this id wraps.
    pub fn to_index(self) -> (index: usize)
        ensures
            index == self.index(),
    {
        self.index as usize
    }

    /// Returns the raw index this id wraps: the module's insertion order.
    pub fn to_u32(self) -> (raw: u32)
        ensures
            raw == self.raw(),
    {
        self.index
    }

    /// Returns the tag of the graph that minted this id.
    pub fn graph_tag(self) -> (tag: u64)
        ensures
            tag == self.graph(),
    {
        self.graph
    }
}

impl PartialOrd for ModuleId {
    fn partial_cmp(&self, other: &Self) -> (o: Option<Ordering>)
        ensures
            self.raw() < other.raw() ==> o == Some(Ordering::Less),
            self.raw() > other.raw() ==> o == Some(Ordering::Greater),
            o == Some(Ordering::Equal) <==> *self == *other,
    {
        if self.index < other.index {
            Some(Ordering::Less)
        } else if self.index > other.index {
            Some(Ordering::Greater)
        } else if self.graph < other.graph {
            Some(Ordering::Less)
        } else if self.graph > other.graph {
            Some(Ordering::Greater)
        } else {
            Some(Ordering::Equal)
        }
    }
}

impl PartialOrdSpecImpl for ModuleId {
    open spec fn obeys_partial_cmp_spec() -> bool {
        true
    }

    open spec fn partial_cmp_spec(&self, other: &Self) -> Option<Ordering> {
        if self.raw() < other.raw() {
            Some(Ordering::Less)
        } else if self.raw() > other.raw() {
            Some(Ordering::Greater)
        } else if self.graph() < other.graph() {
            Some(Ordering::Less)
        } else if self.graph() > other.graph() {
            Some(Ordering::Greater)
        } else {
            Some(Ordering::Equal)
        }
    }
}

/// Ids order by their index: a smaller index compares less and a larger one
/// greater, the order is antisymmetric and total, and two ids compare equal
/// exactly when they are the same id (same index, same graph).
pub proof fn lemma_ids_order_by_index(a: ModuleId, b: ModuleId)
    ensures
        a.raw() < b.raw() ==> PartialOrdSpec::partial_cmp_spec(&a, &b) == Some(Ordering::Less),
        a.raw() > b.raw() ==> PartialOrdSpec::partial_cmp_spec(&a, &b) == Some(Ordering::Greater),
        (PartialOrdSpec::partial_cmp_spec(&a, &b) == Some(Ordering::Less)) == (PartialOrdSpec::partial_cmp_spec(&b, &a) == Some(
            Ordering::Greater,
        )),
        (PartialOrdSpec::partial_cmp_spec(&a, &b) == Some(Ordering::Equal)) == (a == b),
        PartialOrdSpec::partial_cmp_spec(&a, &b) is Some,
{
    ModuleId::lemma_index_identifies(a, b);
}

} // verus!
