//! The outside handle types a module graph speaks in, and the one call it makes
//! on them.

use vstd::prelude::*;

verus! {

/// The interned name a module declares (`symbol_lang::Symbol`, a re-export of
/// `intern_lang::Symbol`). Carried through the graph as an opaque handle.
#[verifier::external_type_specification]
#[verifier::external_body]
pub struct ExSymbol(symbol_lang::Symbol);

/// The file a module was read from (`source_lang::SourceId`). Carried through the
/// graph as an opaque handle.
#[verifier::external_type_specification]
#[verifier::external_body]
pub struct ExSourceId(source_lang::SourceId);

/// The raw 1-based id that `Symbol::as_u32` returns for a symbol.
pub uninterp spec fn symbol_id(name: symbol_lang::Symbol) -> u32;

/// Calls `Symbol::as_u32`. Trusted: the result is the symbol's id, which is
/// never `0`, and which no other symbol has (a symbol is a `NonZeroU32` and
/// `as_u32` returns it).
#[verifier::external_body]
pub(crate) fn symbol_key(name: symbol_lang::Symbol) -> (key: u32)
    ensures
        key == symbol_id(name),
        key >= 1,
        forall|other: symbol_lang::Symbol| #[trigger] symbol_id(other) == key ==> other == name,
{
    name.as_u32()
}

} // verus!
