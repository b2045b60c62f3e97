//! The error type returned when the graph is built or a name is resolved.

use vstd::prelude::*;
use vstd::string::*;

use symbol_lang::Symbol;

use crate::id::ModuleId;
use crate::names::{symbol_id, symbol_key};

verus! {

/// The reason a graph operation or a name resolution did not succeed.
///
/// Building the graph and resolving through it can fail five ways, each a
/// distinct, defined outcome rather than a panic or a silently wrong answer. Each
/// variant carries the module id and the symbol it concerns, so a caller can
/// recover the spelling from its own interner; `to_string` gives a terse text that
/// names the raw ids.
#[derive(Clone, Copy, Debug, PartialEq, Eq)]
#[non_exhaustive]
pub enum ResolveError {
    /// A module id was passed that this graph never minted.
    UnknownModule(ModuleId),
    /// A name was declared twice in the same module.
    DuplicateName {
        /// The module the duplicate was added to.
        module: ModuleId,
        /// The name that was already declared there.
        name: Symbol,
    },
    /// A name is not declared in the module it was looked up in.
    Unresolved {
        /// The module the name was looked up in.
        module: ModuleId,
        /// The name that could not be found.
        name: Symbol,
    },
    /// An import reached a name that is private to the module declaring it.
    Private {
        /// The module that declares the name privately.
        module: ModuleId,
        /// The private name an import tried to reach.
        name: Symbol,
    },
    /// An import chain loops back on itself.
    ImportCycle {
        /// The module the walk looped back to.
        module: ModuleId,
        /// The name whose import chain forms the cycle.
        name: Symbol,
    },
}

/// The decimal digit `d` (below ten) as a character.
pub open spec fn digit_char(d: nat) -> char {
    (d + 48) as char
}

/// The decimal spelling of `n`, most significant digit first, without leading
/// zeros.
pub open spec fn decimal(n: nat) -> Seq<char>
    decreases n,
{
    if n < 10 {
        seq![digit_char(n)]
    } else {
        decimal(n / 10).push(digit_char(n % 10))
    }
}

impl ResolveError {
    /// The text `to_string` returns for this error.
    pub open spec fn text(self) -> Seq<char> {
        match self {
            ResolveError::UnknownModule(id) => "module id "@ + decimal(id.index())
                + " was not minted by this graph"@,
            ResolveError::DuplicateName { module, name } => "name (symbol "@ + decimal(
                symbol_id(name) as nat,
            ) + ") is already declared in module "@ + decimal(module.index()),
            ResolveError::Unresolved { module, name } => "no name (symbol "@ + decimal(
                symbol_id(name) as nat,
            ) + ") is declared in module "@ + decimal(module.index()),
            ResolveError::Private { module, name } => "name (symbol "@ + decimal(
                symbol_id(name) as nat,
            ) + ") in module "@ + decimal(module.index())
                + " is private and cannot be imported"@,
            ResolveError::ImportCycle { module, name } => "import of name (symbol "@ + decimal(
                symbol_id(name) as nat,
            ) + ") forms a cycle at module "@ + decimal(module.index()),
        }
    }

    /// A terse description that names the raw module and symbol ids (the graph
    /// does not own the interner, so it cannot print the name itself).
    pub fn to_string(&self) -> (text: String)
        ensures
            text@ == self.text(),
    {
        let mut text = String::new();
        match self {
            ResolveError::UnknownModule(id) => {
                text.append("module id ");
                push_decimal(&mut text, id.to_u32());
                text.append(" was not minted by this graph");
            },
            ResolveError::DuplicateName { module, name } => {
                text.append("name (symbol ");
                push_decimal(&mut text, symbol_key(*name));
                text.append(") is already declared in module ");
                push_decimal(&mut text, module.to_u32());
            },
            ResolveError::Unresolved { module, name } => {
                text.append("no name (symbol ");
                push_decimal(&mut text, symbol_key(*name));
                text.append(") is declared in module ");
                push_decimal(&mut text, module.to_u32());
            },
            ResolveError::Private { module, name } => {
                text.append("name (symbol ");
                push_decimal(&mut text, symbol_key(*name));
                text.append(") in module ");
                push_decimal(&mut text, module.to_u32());
                text.append(" is private and cannot be imported");
            },
            ResolveError::ImportCycle { module, name } => {
                text.append("import of name (symbol ");
                push_decimal(&mut text, symbol_key(*name));
                text.append(") forms a cycle at module ");
                push_decimal(&mut text, module.to_u32());
            },
        }
        text
    }
}

/// Appends the decimal spelling of `n` to `text`.
fn push_decimal(text: &mut String, n: u32)
    ensures
        final(text)@ == old(text)@ + decimal(n as nat),
    decreases n,
{
    if n >= 10 {
        push_decimal(text, n / 10);
    }
    text.append(digit_text(n % 10));
    proof {
        assert(n as nat / 10 == (n / 10) as nat);
    }
}

/// The one-character text of the decimal digit `d`.
fn digit_text(d: u32) -> (digit: &'static str)
    requires
        d < 10,
    ensures
        digit@ == seq![digit_char(d as nat)],
{
    proof {
        reveal_strlit("0");
        reveal_strlit("1");
        reveal_strlit("2");
        reveal_strlit("3");
        reveal_strlit("4");
        reveal_strlit("5");
        reveal_strlit("6");
        reveal_strlit("7");
        reveal_strlit("8");
        reveal_strlit("9");
    }
    match d {
        0 => "0",
        1 => "1",
        2 => "2",
        3 => "3",
        4 => "4",
        5 => "5",
        6 => "6",
        7 => "7",
        8 => "8",
        _ => "9",
    }
}

} // verus!
