//! Type information for the values that rows of a [`crate::row_buffer`] can
//! hold, and the [`Reflect`] trait that connects a Rust type to it.

use vstd::prelude::*;
use crate::layout::Layout;
use vstd::layout::{size_of, align_of};

verus! {

/// A 64-bit floating point number, held by its IEEE 754 bit pattern.
#[derive(Clone, Copy, Debug, PartialEq, Eq, Structural)]
pub struct F64Bits(pub u64);

/// The types a row field can have.
#[derive(Clone, Copy, Debug, PartialEq, Eq, Structural)]
pub enum ConcreteTy {
    U32,
    Bool,
    F64,
    Str,
}

/// Options that describe a type beyond its layout.
#[derive(Clone, Copy, Debug, PartialEq, Eq, Structural)]
pub struct TypeInfoOptions {
    /// Whether this type is valid at the all-zero bit pattern *and* represents
    /// the numeric value 0.
    pub is_zeroable: bool,
}

/// Information about a type that is used by the engine to manipulate values
/// of the corresponding type.
#[derive(Clone, Copy, Debug)]
pub struct TypeInfo {
    pub debug_name: &'static str,
    pub layout: Layout,
    /// Whether this type is valid at the all-zero bit pattern *and* represents
    /// the numeric value 0.
    pub is_zeroable: bool,
}

impl TypeInfo {
    /// The type information of `T` with the given name and options.
    pub fn new<T>(debug_name: &'static str, options: TypeInfoOptions) -> (r: TypeInfo)
        ensures
            r.debug_name == debug_name,
            r.layout.valid(),
            r.layout.spec_size() == vstd::layout::size_of::<T>(),
            r.layout.spec_align() == vstd::layout::align_of::<T>(),
            r.is_zeroable == options.is_zeroable,
    {
        TypeInfo { debug_name, layout: Layout::new::<T>(), is_zeroable: options.is_zeroable }
    }
}

/// A value held by a row field.
#[derive(Clone, Debug, PartialEq, Eq)]
pub enum FieldValue {
    U32(u32),
    Bool(bool),
    F64(F64Bits),
    Str(String),
}

/// The type of a field value.
pub open spec fn value_ty(v: FieldValue) -> ConcreteTy {
    match v {
        FieldValue::U32(_) => ConcreteTy::U32,
        FieldValue::Bool(_) => ConcreteTy::Bool,
        FieldValue::F64(_) => ConcreteTy::F64,
        FieldValue::Str(_) => ConcreteTy::Str,
    }
}

/// Whether `v` is the value a zeroed field of its type holds.
pub open spec fn is_zero_value(v: FieldValue) -> bool {
    match v {
        FieldValue::U32(x) => x == 0,
        FieldValue::Bool(b) => !b,
        FieldValue::F64(f) => f.0 == 0,
        FieldValue::Str(s) => s@.len() == 0,
    }
}

/// Whether values of the type are valid when all their bytes are zero.
pub open spec fn spec_is_zeroable(t: ConcreteTy) -> bool {
    t != ConcreteTy::Str
}

/// The size in bytes of a value of the type.
pub open spec fn ty_size(t: ConcreteTy) -> nat {
    match t {
        ConcreteTy::U32 => size_of::<u32>(),
        ConcreteTy::Bool => size_of::<bool>(),
        ConcreteTy::F64 => size_of::<F64Bits>(),
        ConcreteTy::Str => size_of::<String>(),
    }
}

/// The alignment of a value of the type.
pub open spec fn ty_align(t: ConcreteTy) -> nat {
    match t {
        ConcreteTy::U32 => align_of::<u32>(),
        ConcreteTy::Bool => align_of::<bool>(),
        ConcreteTy::F64 => align_of::<F64Bits>(),
        ConcreteTy::Str => align_of::<String>(),
    }
}

/// The name of the type.
pub open spec fn ty_name(t: ConcreteTy) -> &'static str {
    match t {
        ConcreteTy::U32 => "u32",
        ConcreteTy::Bool => "bool",
        ConcreteTy::F64 => "f64",
        ConcreteTy::Str => "String",
    }
}

impl ConcreteTy {
    /// The type information of this type.
    pub fn info(&self) -> (r: TypeInfo)
        ensures
            r.is_zeroable == spec_is_zeroable(*self),
            r.layout.valid(),
            r.layout.spec_size() == ty_size(*self),
            r.layout.spec_align() == ty_align(*self),
            r.debug_name == ty_name(*self),
    {
        match self {
            ConcreteTy::U32 => TypeInfo::new::<u32>("u32", TypeInfoOptions { is_zeroable: true }),
            ConcreteTy::Bool => TypeInfo::new::<bool>("bool", TypeInfoOptions { is_zeroable: true }),
            ConcreteTy::F64 => TypeInfo::new::<F64Bits>("f64", TypeInfoOptions { is_zeroable: true }),
            ConcreteTy::Str => TypeInfo::new::<String>("String", TypeInfoOptions { is_zeroable: false }),
        }
    }

    /// The value held by an absent field of this type.
    pub fn zero_value(&self) -> (r: FieldValue)
        ensures
            value_ty(r) == *self,
            is_zero_value(r),
    {
        match self {
            ConcreteTy::U32 => FieldValue::U32(0),
            ConcreteTy::Bool => FieldValue::Bool(false),
            ConcreteTy::F64 => FieldValue::F64(F64Bits(0)),
            ConcreteTy::Str => FieldValue::Str(String::new()),
        }
    }
}

/// A trait to indicate that rows can hold values of this type.
pub trait Reflect: Sized {
    /// The type of the fields that hold values of this type.
    const CONCRETE_TY: ConcreteTy;

    /// The field value holding `self`.
    spec fn embed(self) -> FieldValue;

    /// The field value holding `self` has the type of this type's fields.
    proof fn lemma_embed_ty(self)
        ensures
            value_ty(self.embed()) == Self::CONCRETE_TY,
    ;

    /// The field value holding `self`.
    fn into_field(self) -> (v: FieldValue)
        ensures
            v == self.embed(),
            value_ty(v) == Self::CONCRETE_TY,
    ;

    /// The value held by `v`, if `v` holds a value of this type.
    fn from_field(v: FieldValue) -> (r: Option<Self>)
        ensures
            r is Some <==> value_ty(v) == Self::CONCRETE_TY,
            r matches Some(x) ==> x.embed() == v,
    ;

    /// A reference to the value held by `v`, if `v` holds a value of this
    /// type.
    fn ref_field(v: &FieldValue) -> (r: Option<&Self>)
        ensures
            r is Some <==> value_ty(*v) == Self::CONCRETE_TY,
            r matches Some(x) ==> x.embed() == *v,
    ;

    /// A mutable reference to the value held by `v`, if `v` holds a value of
    /// this type.
    fn mut_field(v: &mut FieldValue) -> (r: Option<&mut Self>)
        ensures
            r is Some <==> value_ty(*old(v)) == Self::CONCRETE_TY,
            r matches Some(x) ==> (*x).embed() == *old(v) && *final(v) == (*final(x)).embed()
                && value_ty(*final(v)) == Self::CONCRETE_TY,
            r is None ==> *final(v) == *old(v),
    ;
}

impl Reflect for u32 {
    const CONCRETE_TY: ConcreteTy = ConcreteTy::U32;

    open spec fn embed(self) -> FieldValue {
        FieldValue::U32(self)
    }

    proof fn lemma_embed_ty(self) {
    }

    fn into_field(self) -> (v: FieldValue) {
        FieldValue::U32(self)
    }

    fn from_field(v: FieldValue) -> (r: Option<Self>) {
        match v {
            FieldValue::U32(x) => Some(x),
            _ => None,
        }
    }

    fn mut_field(v: &mut FieldValue) -> (r: Option<&mut Self>) {
        match v {
            FieldValue::U32(x) => Some(x),
            _ => None,
        }
    }

    fn ref_field(v: &FieldValue) -> (r: Option<&Self>) {
        match v {
            FieldValue::U32(x) => Some(x),
            _ => None,
        }
    }
}

impl Reflect for bool {
    const CONCRETE_TY: ConcreteTy = ConcreteTy::Bool;

    open spec fn embed(self) -> FieldValue {
        FieldValue::Bool(self)
    }

    proof fn lemma_embed_ty(self) {
    }

    fn into_field(self) -> (v: FieldValue) {
        FieldValue::Bool(self)
    }

    fn from_field(v: FieldValue) -> (r: Option<Self>) {
        match v {
            FieldValue::Bool(x) => Some(x),
            _ => None,
        }
    }

    fn mut_field(v: &mut FieldValue) -> (r: Option<&mut Self>) {
        match v {
            FieldValue::Bool(x) => Some(x),
            _ => None,
        }
    }

    fn ref_field(v: &FieldValue) -> (r: Option<&Self>) {
        match v {
            FieldValue::Bool(x) => Some(x),
            _ => None,
        }
    }
}

impl Reflect for F64Bits {
    const CONCRETE_TY: ConcreteTy = ConcreteTy::F64;

    open spec fn embed(self) -> FieldValue {
        FieldValue::F64(self)
    }

    proof fn lemma_embed_ty(self) {
    }

    fn into_field(self) -> (v: FieldValue) {
        FieldValue::F64(self)
    }

    fn from_field(v: FieldValue) -> (r: Option<Self>) {
        match v {
            FieldValue::F64(x) => Some(x),
            _ => None,
        }
    }

    fn mut_field(v: &mut FieldValue) -> (r: Option<&mut Self>) {
        match v {
            FieldValue::F64(x) => Some(x),
            _ => None,
        }
    }

    fn ref_field(v: &FieldValue) -> (r: Option<&Self>) {
        match v {
            FieldValue::F64(x) => Some(x),
            _ => None,
        }
    }
}

impl Reflect for String {
    const CONCRETE_TY: ConcreteTy = ConcreteTy::Str;

    open spec fn embed(self) -> FieldValue {
        FieldValue::Str(self)
    }

    proof fn lemma_embed_ty(self) {
    }

    fn into_field(self) -> (v: FieldValue) {
        FieldValue::Str(self)
    }

    fn from_field(v: FieldValue) -> (r: Option<Self>) {
        match v {
            FieldValue::Str(x) => Some(x),
            _ => None,
        }
    }

    fn mut_field(v: &mut FieldValue) -> (r: Option<&mut Self>) {
        match v {
            FieldValue::Str(x) => Some(x),
            _ => None,
        }
    }

    fn ref_field(v: &FieldValue) -> (r: Option<&Self>) {
        match v {
            FieldValue::Str(x) => Some(x),
            _ => None,
        }
    }
}

} // verus!
