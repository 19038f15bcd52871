use vstd::prelude::*;

verus! {

/// Everything that can stop a parse or a run. Positions count characters
/// from the start of the source text.
#[derive(Debug, Clone, Copy, PartialEq, Eq, Structural)]
pub enum Error {
    /// A character that starts no token, and where it stands.
    Char(usize, char),
    /// An identifier was expected (after `@`, in `{...}`, as a macro name),
    /// or a `]` was missing.
    Syntax(usize),
    /// The text ended where a node or a closing bracket was needed.
    Eof(usize),
    /// An integer literal does not fit the machine's integers.
    Literal(usize),
    /// A reference to a name that is neither a variable nor a macro.
    IdNotFound,
    /// A bind to a name that is already a macro.
    IdIsMacro,
    /// A second definition of a macro.
    MacroRedefined,
    /// A macro call with fewer values on the stack than the macro requires.
    MacroArity(isize),
    /// A bind with too few values on the stack.
    StackUnderflow,
    /// Division by zero.
    DivideByZero,
    /// An arithmetic result outside the machine's integers.
    Overflow,
    /// A `while` body left the stack empty.
    EmptyLoop,
    /// The run went deeper, or looped longer, than its fuel allows.
    OutOfFuel,
}

/// The position a parse error names, or `fallback` for an error of a run.
pub open spec fn error_position(x: Error, fallback: int) -> int {
    match x {
        Error::Char(q, _) => q as int,
        Error::Syntax(q) => q as int,
        Error::Eof(q) => q as int,
        Error::Literal(q) => q as int,
        _ => fallback,
    }
}

} // verus!
