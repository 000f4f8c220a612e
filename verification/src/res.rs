//! Handles into the syntax tree and the closed set of things a name can denote.

use vstd::prelude::*;

verus! {

/// An interned name.
pub type Symbol = u32;

// The names that resolution binds by itself. Whoever interns names gives
// these spellings these symbols, in this order.

/// The symbol of `void`.
pub const SYM_VOID: Symbol = 0;

/// The symbol of `dynamic`.
pub const SYM_DYNAMIC: Symbol = 1;

/// The symbol of `null`.
pub const SYM_NULL: Symbol = 2;

/// The symbol of `false`.
pub const SYM_FALSE: Symbol = 3;

/// The symbol of `true`.
pub const SYM_TRUE: Symbol = 4;

/// The symbol of `this`.
pub const SYM_THIS: Symbol = 5;

/// The symbol of `super`.
pub const SYM_SUPER: Symbol = 6;

/// The symbol of `runtimeType`.
pub const SYM_RUNTIME_TYPE: Symbol = 7;

/// Handle of a syntax-tree node.
#[derive(Clone, Copy, PartialEq, Eq, Structural, Debug, Hash)]
pub struct Node {
    pub index: usize,
}

/// Handle of a compilation unit.
#[derive(Clone, Copy, PartialEq, Eq, Structural, Debug, Hash)]
pub struct Module {
    pub index: usize,
}

/// What a name or a qualified path denotes.
#[derive(Clone, Copy, PartialEq, Eq, Structural, Debug)]
pub enum Res {
    // Types.
    Void,
    /// The type of which nothing is known.
    Dynamic,
    /// A compilation unit, named by the alias of an import.
    Module(Module),
    /// A class or a class that can be mixed in, by its declaration.
    Class(Node),
    Enum(Node),
    TypeAlias(Node),
    TypeParameter(Node),
    // Values.
    Null,
    False,
    True,
    This,
    Super,
    RuntimeType,
    /// A variable, a field or a parameter, by its declaration.
    Var(Node),
    Function(Node),
    Getter(Node),
    Setter(Node),
    /// A getter and a setter of one name. No pass makes this result: a
    /// getter and a setter of one name overwrite each other.
    GetterSetter(Node, Node),
    Constructor(Node),
    /// A result produced by an extension resolver; the payload is opaque here.
    Extension(u64),
    /// The name could not be resolved.
    Error,
}

} // verus!
