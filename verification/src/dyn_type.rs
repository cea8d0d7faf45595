//! Descriptions of the shapes of values that generated code manipulates:
//! references, structs with fields at byte offsets, arrays, and statically
//! known types.

use vstd::prelude::*;
use vstd::string::*;
use std::sync::Arc;
use crate::layout::Layout;
use crate::lir::HostFunctionInfo;

verus! {

/// How values of a type can be duplicated.
#[derive(Debug, Clone)]
pub enum CloneKind {
    /// The type can be bitwise copied like Rust's `Copy` types. This also
    /// covers mutable references, which can be bitwise copied but are not
    /// `Copy`.
    Copy,
    /// The type can be cloned using the specified function.
    Dynamic { clone_fn_info: &'static HostFunctionInfo },
    /// The type cannot be cloned, only moved.
    Uncloneable,
}

/// Information about a type that is used to generate code that manipulates
/// values of the type.
#[derive(Debug, Clone)]
pub struct StaticTypeInfo {
    pub debug_name: &'static str,
    pub layout: Option<Layout>,
    /// Whether this type is valid at the all-zero bit pattern *and*
    /// represents the numeric value 0.
    pub is_zeroable: bool,
    pub clone: CloneKind,
    /// The address of the drop function for this type; `None` if the type
    /// does not need to be dropped.
    pub drop_fn: Option<usize>,
}

/// Whether `a` and `b` are the same description (`std::ptr::eq`); the same
/// description is equal to itself.
#[verifier::external_body]
fn same_static_type(a: &'static StaticTypeInfo, b: &'static StaticTypeInfo) -> (r: bool)
    ensures
        r ==> *a == *b,
{
    std::ptr::eq(a, b)
}

impl StaticTypeInfo {
    /// Whether this is the description of `T`.
    pub fn is<T: Reflect>(&'static self) -> (r: bool)
        ensures
            r ==> *self == *T::STATIC_TYPE,
    {
        same_static_type(self, T::STATIC_TYPE)
    }
}

/// A type whose values generated code can manipulate.
pub trait Reflect {
    /// The description of the type.
    const STATIC_TYPE: &'static StaticTypeInfo;
}

/// A type that can describe its shape.
pub trait CreateDynType {
    /// This should only be called once, and stored for future queries about
    /// the same type.
    fn create_dyn_type() -> DynType;
}

/// The shape of a value.
pub enum DynType {
    /// A non-owning, mutable reference to the specified type. Equivalent to
    /// `&mut T` but without a uniqueness guarantee.
    Ref(Box<DynType>),
    /// An aggregate type with the specified fields.
    Struct(Arc<DynTypeStruct>),
    /// An array whose elements have the given type. If the length is
    /// specified, then the array has exactly that many elements, otherwise
    /// its length is not statically known.
    Array(Arc<DynTypeArray>),
    /// A statically known type.
    StaticStruct(Arc<DynTypeStaticStruct>),
    /// We know nothing about this type.
    Unknown,
}

/// A struct with fields at byte offsets.
pub struct DynTypeStruct {
    /// The fields of the type, by byte offset. This may not be a complete
    /// list.
    pub fields: Vec<(usize, DynType)>,
    pub overall: Layout,
}

/// An array.
pub struct DynTypeArray {
    pub element: DynType,
    pub length: Option<usize>,
}

/// A statically known struct.
pub struct DynTypeStaticStruct {
    pub static_ty: &'static StaticTypeInfo,
    /// Any additional information about the fields of this struct.
    pub fields: Vec<(usize, DynType)>,
}

/// A step from a value to a part of it.
#[derive(Debug, Clone, Copy, PartialEq, Eq, Structural)]
pub enum Projection {
    /// The value a reference points to.
    Deref,
    /// The field at a byte offset.
    Field { byte_offset: usize },
    /// An element at an index computed at run time (held by the given
    /// local).
    DynamicIndex(usize),
    /// An element at a known index.
    StaticIndex(usize),
}

/// A projection does not apply to a type.
#[derive(Debug, PartialEq, Eq, Structural)]
pub struct ProjectionError;

/// Whether `a` and `b` are the same allocation (`Arc::ptr_eq`); the same
/// allocation holds the same value.
#[verifier::external_body]
fn same_struct(a: &Arc<DynTypeStruct>, b: &Arc<DynTypeStruct>) -> (r: bool)
    ensures
        r ==> **a == **b,
{
    Arc::ptr_eq(a, b)
}

/// Whether `a` and `b` are the same allocation (`Arc::ptr_eq`); the same
/// allocation holds the same value.
#[verifier::external_body]
fn same_static_struct(a: &Arc<DynTypeStaticStruct>, b: &Arc<DynTypeStaticStruct>) -> (r: bool)
    ensures
        r ==> **a == **b,
{
    Arc::ptr_eq(a, b)
}

/// The type of the first of `fields` at byte offset `byte_offset`.
pub open spec fn field_at(fields: Seq<(usize, DynType)>, byte_offset: usize) -> Option<DynType>
    decreases fields.len(),
{
    if fields.len() == 0 {
        None
    } else if fields[0].0 == byte_offset {
        Some(fields[0].1)
    } else {
        field_at(fields.drop_first(), byte_offset)
    }
}

/// The fields of a type, if it is a struct.
pub open spec fn fields_of(t: DynType) -> Option<Seq<(usize, DynType)>> {
    match t {
        DynType::Struct(s) => Some(s.fields@),
        DynType::StaticStruct(s) => Some(s.fields@),
        _ => None,
    }
}

/// The result of a projection: the part's type, or `None` if the projection
/// does not apply.
pub open spec fn projected(t: DynType, projection: Projection) -> Option<DynType> {
    match projection {
        Projection::Deref => match t {
            DynType::Ref(p) => Some(*p),
            _ => None,
        },
        Projection::Field { byte_offset } => match fields_of(t) {
            Some(fields) => field_at(fields, byte_offset),
            None => None,
        },
        Projection::DynamicIndex(_) | Projection::StaticIndex(_) => match t {
            DynType::Array(a) => Some(a.element),
            _ => None,
        },
    }
}

/// The layout of values of a type that has one known.
pub open spec fn dyn_layout(t: DynType) -> Option<Layout> {
    match t {
        DynType::Ref(_) => Some(Layout::spec_new::<usize>()),
        DynType::Struct(s) => Some(s.overall),
        DynType::StaticStruct(s) => s.static_ty.layout,
        _ => None,
    }
}

/// A second `Arc` pointing to the same allocation as `a` (`Arc::clone`);
/// it holds the same value.
#[verifier::external_body]
fn arc_clone<T>(a: &Arc<T>) -> (r: Arc<T>)
    ensures
        r == *a,
{
    Arc::clone(a)
}

/// A copy of the shape `t`; the parts behind `Arc`s are shared.
fn clone_dyn_type(t: &DynType) -> (r: DynType)
    ensures
        r == *t,
    decreases t,
{
    match t {
        DynType::Ref(pointee) => DynType::Ref(Box::new(clone_dyn_type(&**pointee))),
        DynType::Struct(s) => DynType::Struct(arc_clone(s)),
        DynType::Array(a) => DynType::Array(arc_clone(a)),
        DynType::StaticStruct(s) => DynType::StaticStruct(arc_clone(s)),
        DynType::Unknown => DynType::Unknown,
    }
}

impl Clone for DynType {
    fn clone(&self) -> (r: Self)
        ensures
            r == *self,
    {
        clone_dyn_type(self)
    }
}

impl DynType {
    /// The layout of values of this type. Arrays, unknown types and static
    /// types without a layout have none.
    pub fn layout(&self) -> (r: Layout)
        requires
            dyn_layout(*self) is Some,
        ensures
            dyn_layout(*self) == Some(r),
    {
        match self {
            DynType::Ref(_) => Layout::new::<usize>(),
            DynType::Struct(struct_def) => struct_def.overall,
            DynType::StaticStruct(struct_def) => struct_def.static_ty.layout.unwrap(),
            _ => {
                None::<()>.expect("Cannot get layout");
                Layout::new::<usize>()
            },
        }
    }

    /// The static description of this type, if it is statically known.
    pub fn static_ty(&self) -> (r: Option<&'static StaticTypeInfo>)
        ensures
            r == match *self {
                DynType::StaticStruct(s) => Some(s.static_ty),
                _ => None,
            },
    {
        match self {
            DynType::StaticStruct(struct_def) => Some(struct_def.static_ty),
            _ => None,
        }
    }

    /// Whether values of this type must be dropped. Structs without a static
    /// description are not expected to be dropped.
    pub fn has_drop_fn(&self) -> (r: bool)
        requires
            !(*self is Struct),
        ensures
            r == match *self {
                DynType::StaticStruct(s) => s.static_ty.drop_fn is Some,
                _ => false,
            },
    {
        match self {
            DynType::StaticStruct(struct_def) => struct_def.static_ty.drop_fn.is_some(),
            _ => false,
        }
    }

    /// How values of this type can be duplicated: references are copied,
    /// static types as their description says, and others cannot be.
    pub fn clone_kind(&self) -> (r: &CloneKind)
        ensures
            match *self {
                DynType::StaticStruct(s) => *r == s.static_ty.clone,
                DynType::Ref(_) => *r is Copy,
                _ => *r is Uncloneable,
            },
    {
        match self {
            DynType::StaticStruct(struct_def) => &struct_def.static_ty.clone,
            DynType::Ref(_) => &CloneKind::Copy,
            _ => &CloneKind::Uncloneable,
        }
    }

    /// Whether this is the statically known type `T`.
    pub fn is<T: Reflect>(&self) -> (r: bool)
        ensures
            r ==> (*self is StaticStruct && *self->StaticStruct_0.static_ty == *T::STATIC_TYPE),
    {
        match self.static_ty() {
            Some(t) => same_static_type(t, T::STATIC_TYPE),
            None => false,
        }
    }

    /// Whether a value of type `other` can be used where this type is
    /// expected: anything fits an unknown type, references must have equal
    /// pointee types (mutable references are invariant), and structs must
    /// share their description. Whole arrays are never compared.
    pub fn is_supertype_of(&self, other: &Self) -> (r: bool)
        requires
            !(*self is Array && *other is Array),
        ensures
            *self is Unknown ==> r,
            !(*self is Unknown) && *other is Unknown ==> !r,
            (*self is Ref && *other is Ref) ==> (r ==> same_shape(*self, *other)),
            (*self is Ref && *other is Ref) ==> (same_shape(*self, *other) && static_free(*self) ==> r),
            (*self is Struct && *other is Struct) ==> (r ==> *self == *other),
            (*self is StaticStruct && *other is StaticStruct) ==> (r ==> *self == *other),
            r ==> *self is Unknown || (*self is Ref && *other is Ref) || (*self is Struct && *other is Struct)
                || (*self is StaticStruct && *other is StaticStruct),
    {
        match (self, other) {
            (DynType::Unknown, _) => true,
            (_, DynType::Unknown) => false,
            (DynType::Ref(pointee), DynType::Ref(other_pointee)) => {
                // don't check for a supertype relation because mutable
                // references are invariant in their pointee type
                dyn_type_eq(pointee, other_pointee)
            },
            (DynType::Struct(my_struct_def), DynType::Struct(other_struct_def)) => same_struct(
                my_struct_def,
                other_struct_def,
            ),
            (DynType::StaticStruct(my_struct_def), DynType::StaticStruct(other_struct_def)) => {
                same_static_struct(my_struct_def, other_struct_def)
            },
            _ => false,
        }
    }

    /// A struct with the given layout and fields.
    pub fn new_struct(layout: Layout, fields: Vec<(usize, DynType)>) -> (r: Self)
        ensures
            r matches DynType::Struct(s) && s.fields@ == fields@ && s.overall == layout,
    {
        DynType::Struct(Arc::new(DynTypeStruct { fields, overall: layout }))
    }

    /// The statically known type `T`, with the given fields.
    pub fn new_struct_with_static_type<T: Reflect>(fields: Vec<(usize, DynType)>) -> (r: Self)
        ensures
            r matches DynType::StaticStruct(s) && s.fields@ == fields@ && s.static_ty == T::STATIC_TYPE,
    {
        DynType::StaticStruct(Arc::new(DynTypeStaticStruct { static_ty: T::STATIC_TYPE, fields }))
    }

    /// A reference to `pointee`.
    pub fn ref_to(pointee: DynType) -> (r: Self)
        ensures
            r == DynType::Ref(Box::new(pointee)),
    {
        DynType::Ref(Box::new(pointee))
    }

    /// An array of `element`, of the given length if it is known.
    pub fn array_of(element: DynType, length: Option<usize>) -> (r: Self)
        ensures
            r matches DynType::Array(a) && a.element == element && a.length == length,
    {
        DynType::Array(Arc::new(DynTypeArray { element, length }))
    }

    /// The type of the part of a value of this type that `projection` picks.
    pub fn project(&self, projection: Projection) -> (r: Result<&DynType, ProjectionError>)
        ensures
            match projected(*self, projection) {
                Some(t) => r == Ok::<&DynType, ProjectionError>(&t),
                None => r is Err,
            },
    {
        match projection {
            Projection::Deref => self.proj_deref(),
            Projection::Field { byte_offset } => self.proj_field(byte_offset),
            Projection::DynamicIndex(_) => self.proj_dynamic_index(),
            Projection::StaticIndex(i) => self.proj_static_index(i),
        }
    }

    /// The pointee type of a reference.
    pub fn proj_deref(&self) -> (r: Result<&DynType, ProjectionError>)
        ensures
            match projected(*self, Projection::Deref) {
                Some(t) => r == Ok::<&DynType, ProjectionError>(&t),
                None => r is Err,
            },
    {
        match self {
            DynType::Ref(pointee) => Ok(&**pointee),
            _ => Err(ProjectionError),
        }
    }

    /// The type of the first field at `byte_offset` of a struct.
    pub fn proj_field(&self, byte_offset: usize) -> (r: Result<&DynType, ProjectionError>)
        ensures
            match projected(*self, Projection::Field { byte_offset }) {
                Some(t) => r == Ok::<&DynType, ProjectionError>(&t),
                None => r is Err,
            },
    {
        let fields = match self {
            DynType::Struct(struct_def) => &struct_def.fields,
            DynType::StaticStruct(struct_def) => &struct_def.fields,
            _ => {
                return Err(ProjectionError);
            },
        };
        let mut k: usize = 0;
        assert(fields@.skip(0) =~= fields@);
        while k < fields.len()
            invariant
                k <= fields.len(),
                fields_of(*self) == Some(fields@),
                field_at(fields@, byte_offset) == field_at(fields@.skip(k as int), byte_offset),
            decreases fields.len() - k,
        {
            if fields[k].0 == byte_offset {
                return Ok(&fields[k].1);
            }
            assert(fields@.skip(k + 1) =~= fields@.skip(k as int).drop_first());
            k = k + 1;
        }
        Err(ProjectionError)
    }

    /// The element type of an array, for an index known statically.
    pub fn proj_static_index(&self, index: usize) -> (r: Result<&DynType, ProjectionError>)
        ensures
            match projected(*self, Projection::StaticIndex(index)) {
                Some(t) => r == Ok::<&DynType, ProjectionError>(&t),
                None => r is Err,
            },
    {
        match self {
            DynType::Array(array) => Ok(&array.element),
            _ => Err(ProjectionError),
        }
    }

    /// The element type of an array, for an index computed at run time.
    pub fn proj_dynamic_index(&self) -> (r: Result<&DynType, ProjectionError>)
        ensures
            match projected(*self, Projection::DynamicIndex(0)) {
                Some(t) => r == Ok::<&DynType, ProjectionError>(&t),
                None => r is Err,
            },
    {
        match self {
            DynType::Array(array) => Ok(&array.element),
            _ => Err(ProjectionError),
        }
    }
}

/// Whether two lists of fields have the same offsets and shapes.
pub open spec fn same_fields(a: Seq<(usize, DynType)>, b: Seq<(usize, DynType)>) -> bool
    decreases a, 0nat,
{
    &&& a.len() == b.len()
    &&& forall|j: int| 0 <= j < a.len() ==> (#[trigger] a[j]).0 == b[j].0 && same_shape(a[j].1, b[j].1)
}

/// Whether two types have the same shape: the same variants, layouts,
/// lengths, field offsets and static descriptions, all the way down.
pub open spec fn same_shape(a: DynType, b: DynType) -> bool
    decreases a, 1nat,
{
    match (a, b) {
        (DynType::Ref(x), DynType::Ref(y)) => same_shape(*x, *y),
        (DynType::Struct(x), DynType::Struct(y)) => x.overall == y.overall && same_fields(x.fields@, y.fields@),
        (DynType::Array(x), DynType::Array(y)) => x.length == y.length && same_shape(x.element, y.element),
        (DynType::StaticStruct(x), DynType::StaticStruct(y)) => *x.static_ty == *y.static_ty && same_fields(
            x.fields@,
            y.fields@,
        ),
        (DynType::Unknown, DynType::Unknown) => true,
        _ => false,
    }
}

/// Whether no static description occurs in `t`.
pub open spec fn static_free(t: DynType) -> bool
    decreases t, 1nat,
{
    match t {
        DynType::Ref(x) => static_free(*x),
        DynType::Struct(x) => static_free_fields(x.fields@),
        DynType::Array(x) => static_free(x.element),
        DynType::StaticStruct(_) => false,
        DynType::Unknown => true,
    }
}

/// Whether no static description occurs in the types of `fields`.
pub open spec fn static_free_fields(fields: Seq<(usize, DynType)>) -> bool
    decreases fields, 0nat,
{
    forall|j: int| 0 <= j < fields.len() ==> static_free((#[trigger] fields[j]).1)
}

/// Whether two lists of fields have the same offsets and shapes, static
/// descriptions compared by identity.
fn fields_eq(a: &Vec<(usize, DynType)>, b: &Vec<(usize, DynType)>) -> (r: bool)
    ensures
        r ==> same_fields(a@, b@),
        same_fields(a@, b@) && static_free_fields(a@) ==> r,
    decreases a@, 0nat,
{
    if a.len() != b.len() {
        return false;
    }
    let mut k: usize = 0;
    while k < a.len()
        invariant
            k <= a.len(),
            a.len() == b.len(),
            forall|j: int| 0 <= j < k ==> (#[trigger] a@[j]).0 == b@[j].0 && same_shape(a@[j].1, b@[j].1),
        decreases a.len() - k,
    {
        if a[k].0 != b[k].0 || !dyn_type_eq(&a[k].1, &b[k].1) {
            return false;
        }
        k = k + 1;
    }
    true
}

/// Whether two types have the same shape, static descriptions compared by
/// identity.
fn dyn_type_eq(a: &DynType, b: &DynType) -> (r: bool)
    ensures
        r ==> same_shape(*a, *b),
        same_shape(*a, *b) && static_free(*a) ==> r,
    decreases *a, 1nat,
{
    match (a, b) {
        (DynType::Ref(x), DynType::Ref(y)) => dyn_type_eq(x, y),
        (DynType::Struct(x), DynType::Struct(y)) => x.overall == y.overall && fields_eq(&x.fields, &y.fields),
        (DynType::Array(x), DynType::Array(y)) => x.length == y.length && dyn_type_eq(&x.element, &y.element),
        (DynType::StaticStruct(x), DynType::StaticStruct(y)) => same_static_type(x.static_ty, y.static_ty)
            && fields_eq(&x.fields, &y.fields),
        (DynType::Unknown, DynType::Unknown) => true,
        _ => false,
    }
}

// ---------------------------------------------------------------------------
// the text describing a type
// ---------------------------------------------------------------------------

/// The decimal digit `d`.
pub open spec fn digit_char(d: nat) -> char {
    if d == 0 { '0' } else if d == 1 { '1' } else if d == 2 { '2' } else if d == 3 { '3' } else if d == 4 { '4' }
    else if d == 5 { '5' } else if d == 6 { '6' } else if d == 7 { '7' } else if d == 8 { '8' } else { '9' }
}

/// The decimal representation of `n`.
pub open spec fn decimal(n: nat) -> Seq<char>
    decreases n,
{
    if n < 10 {
        seq![digit_char(n)]
    } else {
        decimal(n / 10).push(digit_char(n % 10))
    }
}

/// The text of a type: `&T` for a reference, `{ offset: T, ... }` for a
/// struct, `[T; n]` (or `[T; ?]`) for an array, the name of a static type
/// followed by ` + { ... }` when fields are known, and `<unknown type>`.
pub open spec fn dyn_type_text(t: DynType) -> Seq<char>
    decreases t, 1int,
{
    match t {
        DynType::Ref(p) => seq!['&'] + dyn_type_text(*p),
        DynType::Struct(s) => seq!['{'] + fields_text(s.fields@) + seq![' ', '}'],
        DynType::Array(a) => seq!['['] + dyn_type_text(a.element) + seq![';', ' '] + match a.length {
            Some(n) => decimal(n as nat),
            None => seq!['?'],
        } + seq![']'],
        DynType::StaticStruct(s) => s.static_ty.debug_name@ + if s.fields@.len() == 0 {
            Seq::empty()
        } else {
            seq![' ', '+', ' ', '{'] + fields_text(s.fields@) + seq![' ', '}']
        },
        DynType::Unknown => seq!['<', 'u', 'n', 'k', 'n', 'o', 'w', 'n', ' ', 't', 'y', 'p', 'e', '>'],
    }
}

/// The text of fields: ` offset: T,` for each.
pub open spec fn fields_text(fields: Seq<(usize, DynType)>) -> Seq<char>
    decreases fields, 0int,
{
    if fields.len() == 0 {
        Seq::empty()
    } else {
        fields_text(fields.drop_last()) + seq![' '] + decimal(fields.last().0 as nat) + seq![':', ' '] + dyn_type_text(
            fields.last().1,
        ) + seq![',']
    }
}

/// The text of the digit `d`.
fn digit_str(d: usize) -> (r: &'static str)
    requires
        d < 10,
    ensures
        r@ == seq![digit_char(d as nat)],
{
    proof {
        reveal_strlit("0");
        reveal_strlit("1");
        reveal_strlit("2");
        reveal_strlit("3");
        reveal_strlit("4");
        reveal_strlit("5");
        reveal_strlit("6");
        reveal_strlit("7");
        reveal_strlit("8");
        reveal_strlit("9");
    }
    if d == 0 {
        "0"
    } else if d == 1 {
        "1"
    } else if d == 2 {
        "2"
    } else if d == 3 {
        "3"
    } else if d == 4 {
        "4"
    } else if d == 5 {
        "5"
    } else if d == 6 {
        "6"
    } else if d == 7 {
        "7"
    } else if d == 8 {
        "8"
    } else {
        "9"
    }
}

/// Appends the decimal representation of `n`.
pub(crate) fn write_decimal(out: &mut String, n: usize)
    ensures
        final(out)@ == old(out)@ + decimal(n as nat),
    decreases n,
{
    if n >= 10 {
        write_decimal(out, n / 10);
    }
    out.append(digit_str(n % 10));
    proof {
        if n >= 10 {
            assert(decimal(n as nat) == decimal((n / 10) as nat).push(digit_char((n % 10) as nat)));
        }
    }
}

/// Appends the text of `t`.
fn write_dyn_type(out: &mut String, t: &DynType)
    ensures
        final(out)@ == old(out)@ + dyn_type_text(*t),
    decreases t, 1int,
{
    proof {
        reveal_strlit("&");
        reveal_strlit("{");
        reveal_strlit(" }");
        reveal_strlit("[");
        reveal_strlit("; ");
        reveal_strlit("?");
        reveal_strlit("]");
        reveal_strlit(" + {");
        reveal_strlit("<unknown type>");
    }
    match t {
        DynType::Ref(pointee) => {
            out.append("&");
            write_dyn_type(out, &**pointee);
        },
        DynType::Struct(struct_def) => {
            out.append("{");
            write_fields(out, &struct_def.fields);
            out.append(" }");
        },
        DynType::Array(array) => {
            out.append("[");
            write_dyn_type(out, &array.element);
            out.append("; ");
            match array.length {
                Some(length) => write_decimal(out, length),
                None => out.append("?"),
            }
            out.append("]");
        },
        DynType::StaticStruct(struct_def) => {
            out.append(struct_def.static_ty.debug_name);
            if struct_def.fields.len() > 0 {
                out.append(" + {");
                write_fields(out, &struct_def.fields);
                out.append(" }");
            }
        },
        DynType::Unknown => {
            out.append("<unknown type>");
        },
    }
}

/// Appends the text of `fields`.
fn write_fields(out: &mut String, fields: &Vec<(usize, DynType)>)
    ensures
        final(out)@ == old(out)@ + fields_text(fields@),
    decreases fields@, 0int,
{
    let ghost start = out@;
    let mut k: usize = 0;
    while k < fields.len()
        invariant
            k <= fields.len(),
            out@ == start + fields_text(fields@.take(k as int)),
        decreases fields.len() - k,
    {
        proof {
            reveal_strlit(" ");
            reveal_strlit(": ");
            reveal_strlit(",");
        }
        let ghost before = out@;
        out.append(" ");
        write_decimal(out, fields[k].0);
        out.append(": ");
        assert(decreases_to!(fields@ => fields@[k as int]));
        write_dyn_type(out, &fields[k].1);
        out.append(",");
        proof {
            let t = fields@.take(k + 1);
            assert(t.drop_last() =~= fields@.take(k as int));
            assert(t.last() == fields@[k as int]);
            assert(fields_text(t) == fields_text(fields@.take(k as int)) + seq![' '] + decimal(fields@[k as int].0 as nat)
                + seq![':', ' '] + dyn_type_text(fields@[k as int].1) + seq![',']);
            assert(out@ =~= before + seq![' '] + decimal(fields@[k as int].0 as nat) + seq![':', ' '] + dyn_type_text(
                fields@[k as int].1,
            ) + seq![',']);
        }
        k = k + 1;
    }
    proof {
        assert(fields@.take(fields.len() as int) =~= fields@);
    }
}

impl DynType {
    /// The text describing this type (what its debug formatting shows).
    pub fn debug_string(&self) -> (r: String)
        ensures
            r@ == dyn_type_text(*self),
    {
        let mut out = String::new();
        write_dyn_type(&mut out, self);
        out
    }
}

} // verus!
