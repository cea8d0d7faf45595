//! Addresses tied to the lifetime of the borrow they were taken from.

use vstd::prelude::*;
use std::marker::PhantomData;

verus! {

/// The address of a value borrowed for `'a`.
pub struct LifetimePtr<'a> {
    ptr: usize,
    _phantom: PhantomData<&'a ()>,
}

impl<'a> LifetimePtr<'a> {
    /// The address.
    pub closed spec fn addr(&self) -> usize {
        self.ptr
    }

    /// The pointer to `ptr`, which must be the address of a value borrowed
    /// for `'a`.
    pub fn from_addr(ptr: usize) -> (r: LifetimePtr<'a>)
        ensures
            r.addr() == ptr,
    {
        LifetimePtr { ptr, _phantom: PhantomData }
    }

    /// The address.
    pub fn get(&self) -> (r: usize)
        ensures
            r == self.addr(),
    {
        self.ptr
    }

    /// Applies a function to the address without affecting the lifetime.
    pub fn map<F: FnOnce(usize) -> usize>(self, f: F) -> (r: Self)
        requires
            call_requires(f, (self.addr(),)),
        ensures
            call_ensures(f, (self.addr(),), r.addr()),
    {
        LifetimePtr { ptr: f(self.ptr), _phantom: PhantomData }
    }
}

/// The address of a value mutably borrowed for `'a`.
pub struct LifetimePtrMut<'a> {
    ptr: usize,
    _phantom: PhantomData<&'a mut ()>,
}

impl<'a> LifetimePtrMut<'a> {
    /// The address.
    pub closed spec fn addr(&self) -> usize {
        self.ptr
    }

    /// The pointer to `ptr`, which must be the address of a value mutably
    /// borrowed for `'a`.
    pub fn from_addr(ptr: usize) -> (r: LifetimePtrMut<'a>)
        ensures
            r.addr() == ptr,
    {
        LifetimePtrMut { ptr, _phantom: PhantomData }
    }

    /// The address.
    pub fn get(&self) -> (r: usize)
        ensures
            r == self.addr(),
    {
        self.ptr
    }

    /// Applies a function to the address without affecting the lifetime.
    pub fn map<F: FnOnce(usize) -> usize>(self, f: F) -> (r: Self)
        requires
            call_requires(f, (self.addr(),)),
        ensures
            call_ensures(f, (self.addr(),), r.addr()),
    {
        LifetimePtrMut { ptr: f(self.ptr), _phantom: PhantomData }
    }
}

} // verus!
