//! Pointers to values whose shape is only known at run time. Projecting such
//! a pointer checks the projection against the shape and moves the address
//! to the part.

use vstd::prelude::*;
use crate::dyn_type::{dyn_layout, projected, DynType, Projection, ProjectionError};
use crate::lifetime_ptr::{LifetimePtr, LifetimePtrMut};

verus! {

/// A pointer, valid for `'a`, to a value of a dynamically known shape.
pub struct DynPtr<'a> {
    ptr: LifetimePtr<'a>,
    pointee_ty: DynType,
}

impl<'a> DynPtr<'a> {
    /// The address pointed to.
    pub closed spec fn addr(&self) -> usize {
        self.ptr.addr()
    }

    /// The shape of the value pointed to.
    pub closed spec fn pointee(&self) -> DynType {
        self.pointee_ty
    }

    /// The pointer must be valid for `'a`, and `pointee_ty` must describe the
    /// value it points to.
    pub fn new(ptr: LifetimePtr<'a>, pointee_ty: DynType) -> (r: Self)
        ensures
            r.addr() == ptr.addr(),
            r.pointee() == pointee_ty,
    {
        DynPtr { ptr, pointee_ty }
    }

    /// The pointer to the field at `byte_offset` of the value, which must
    /// have a field there.
    pub fn proj_field(self, byte_offset: usize) -> (r: Result<Self, ProjectionError>)
        requires
            projected(self.pointee(), Projection::Field { byte_offset }) is Some ==> self.addr() + byte_offset
                <= usize::MAX,
        ensures
            match projected(self.pointee(), Projection::Field { byte_offset }) {
                Some(t) => r matches Ok(p) && p.pointee() == t && p.addr() == self.addr() + byte_offset,
                None => r is Err,
            },
    {
        // this checks that the pointee has a field at the given byte offset
        let pointee_ty = match self.pointee_ty.proj_field(byte_offset) {
            Ok(t) => t.clone(),
            Err(e) => {
                return Err(e);
            },
        };
        let move_to_field = |p: usize| -> (q: usize)
            requires
                p + byte_offset <= usize::MAX,
            ensures
                q == p + byte_offset,
        {
            p + byte_offset
        };
        let ptr = self.ptr.map(move_to_field);
        Ok(DynPtr { ptr, pointee_ty })
    }

    /// The pointer to the element at `index` of the array pointed to.
    pub fn proj_index(self, index: usize) -> (r: Result<Self, ProjectionError>)
        requires
            projected(self.pointee(), Projection::StaticIndex(index)) matches Some(t) ==> dyn_layout(t) matches Some(l)
                && self.addr() + index * l.spec_size() <= usize::MAX,
        ensures
            match projected(self.pointee(), Projection::StaticIndex(index)) {
                Some(t) => r matches Ok(p) && p.pointee() == t && p.addr() == self.addr() + index
                    * dyn_layout(t).unwrap().spec_size(),
                None => r is Err,
            },
    {
        // this checks that the pointee is an array
        let pointee_ty = match self.pointee_ty.proj_static_index(index) {
            Ok(t) => t.clone(),
            Err(e) => {
                return Err(e);
            },
        };
        let size = pointee_ty.layout().size();
        proof {
            assert(0 <= index * size) by (nonlinear_arith);
        }
        let move_to_element = |p: usize| -> (q: usize)
            requires
                p + index * size <= usize::MAX,
            ensures
                q == p + index * size,
        {
            proof {
                assert(0 <= index * size) by (nonlinear_arith);
            }
            p + index * size
        };
        let ptr = self.ptr.map(move_to_element);
        Ok(DynPtr { ptr, pointee_ty })
    }
}

/// A mutable pointer, valid for `'a`, to a value of a dynamically known shape.
pub struct DynPtrMut<'a> {
    ptr: LifetimePtrMut<'a>,
    pointee_ty: DynType,
}

impl<'a> DynPtrMut<'a> {
    /// The address pointed to.
    pub closed spec fn addr(&self) -> usize {
        self.ptr.addr()
    }

    /// The shape of the value pointed to.
    pub closed spec fn pointee(&self) -> DynType {
        self.pointee_ty
    }

    /// The pointer must be valid for `'a`, and `pointee_ty` must describe the
    /// value it points to.
    pub fn new(ptr: LifetimePtrMut<'a>, pointee_ty: DynType) -> (r: Self)
        ensures
            r.addr() == ptr.addr(),
            r.pointee() == pointee_ty,
    {
        DynPtrMut { ptr, pointee_ty }
    }

    /// The pointer to the field at `byte_offset` of the value, which must
    /// have a field there.
    pub fn proj_field(self, byte_offset: usize) -> (r: Result<Self, ProjectionError>)
        requires
            projected(self.pointee(), Projection::Field { byte_offset }) is Some ==> self.addr() + byte_offset
                <= usize::MAX,
        ensures
            match projected(self.pointee(), Projection::Field { byte_offset }) {
                Some(t) => r matches Ok(p) && p.pointee() == t && p.addr() == self.addr() + byte_offset,
                None => r is Err,
            },
    {
        // this checks that the pointee has a field at the given byte offset
        let pointee_ty = match self.pointee_ty.proj_field(byte_offset) {
            Ok(t) => t.clone(),
            Err(e) => {
                return Err(e);
            },
        };
        let move_to_field = |p: usize| -> (q: usize)
            requires
                p + byte_offset <= usize::MAX,
            ensures
                q == p + byte_offset,
        {
            p + byte_offset
        };
        let ptr = self.ptr.map(move_to_field);
        Ok(DynPtrMut { ptr, pointee_ty })
    }

    /// The pointer to the element at `index` of the array pointed to.
    pub fn proj_index(self, index: usize) -> (r: Result<Self, ProjectionError>)
        requires
            projected(self.pointee(), Projection::StaticIndex(index)) matches Some(t) ==> dyn_layout(t) matches Some(l)
                && self.addr() + index * l.spec_size() <= usize::MAX,
        ensures
            match projected(self.pointee(), Projection::StaticIndex(index)) {
                Some(t) => r matches Ok(p) && p.pointee() == t && p.addr() == self.addr() + index
                    * dyn_layout(t).unwrap().spec_size(),
                None => r is Err,
            },
    {
        // this checks that the pointee is an array
        let pointee_ty = match self.pointee_ty.proj_static_index(index) {
            Ok(t) => t.clone(),
            Err(e) => {
                return Err(e);
            },
        };
        let size = pointee_ty.layout().size();
        proof {
            assert(0 <= index * size) by (nonlinear_arith);
        }
        let move_to_element = |p: usize| -> (q: usize)
            requires
                p + index * size <= usize::MAX,
            ensures
                q == p + index * size,
        {
            proof {
                assert(0 <= index * size) by (nonlinear_arith);
            }
            p + index * size
        };
        let ptr = self.ptr.map(move_to_element);
        Ok(DynPtrMut { ptr, pointee_ty })
    }
}

} // verus!
