//! Passing values across a foreign function boundary as tuples of FFI-safe
//! components.

use vstd::prelude::*;

verus! {

/// A type that can be decomposed into FFI-safe components for passing across
/// an FFI boundary, and recomposed on the other side.
///
/// `Components` is always a tuple, even for a single component (`(T,)`).
pub trait FfiCompose: Sized {
    /// The component types that this type is decomposed into.
    type Components;

    /// Decomposes a value into its component parts.
    fn decompose(self) -> Self::Components;

    /// Recomposes component parts back into a value.
    fn recompose(components: Self::Components) -> Self;
}

/// The type of the `N`-th component of a tuple of components.
pub trait ComponentIndex<const N: usize> {
    type Component;
}

impl<T> ComponentIndex<0> for (T,) {
    type Component = T;
}

impl<T0, T1> ComponentIndex<0> for (T0, T1) {
    type Component = T0;
}

impl<T0, T1> ComponentIndex<1> for (T0, T1) {
    type Component = T1;
}

} // verus!
