use vstd::prelude::*;

verus! {

/// The recoverable failures of the embedding layer.
///
/// Internal invariant violations (stack imbalance, allocation failure) are not
/// part of this type: the verified operations are proved never to reach them.
#[derive(Debug)]
pub enum Error {
    /// The interpreter raised an error while running an operation.
    RuntimeError(&'static str),
    /// A host value could not be turned into an interpreter value.
    ToLuaConversionError { from: &'static str, to: &'static str, message: Option<&'static str> },
    /// An interpreter value could not be turned into the host type asked for.
    FromLuaConversionError { from: &'static str, to: &'static str, message: Option<&'static str> },
    /// A durable registry key was used with an instance of another root.
    MismatchedRegistryKey,
    /// A handle was used with an instance of another root.
    ForeignValue,
    /// A callback was called after the scope that created it had ended.
    CallbackDestructed,
    /// A mutable callback was called again while it was still running.
    RecursiveMutCallback,
    /// A callback returned more values than the operand stack can take.
    StackOverflow,
}

} // verus!
