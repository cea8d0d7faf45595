use oxitortoise::dyn_type::{CloneKind, DynType, Projection, ProjectionError, Reflect, StaticTypeInfo};
use oxitortoise::layout::Layout;
use oxitortoise::lifetime_ptr::{LifetimePtr, LifetimePtrMut};
use oxitortoise::dyn_ptr::{DynPtr, DynPtrMut};

struct Meters;

const METERS_INFO: StaticTypeInfo =
    StaticTypeInfo { debug_name: "Meters", layout: None, is_zeroable: true, clone: CloneKind::Copy, drop_fn: None };

impl Reflect for Meters {
    const STATIC_TYPE: &'static StaticTypeInfo = &METERS_INFO;
}

struct Name;

const NAME_INFO: StaticTypeInfo = StaticTypeInfo {
    debug_name: "Name",
    layout: None,
    is_zeroable: false,
    clone: CloneKind::Uncloneable,
    drop_fn: Some(1),
};

impl Reflect for Name {
    const STATIC_TYPE: &'static StaticTypeInfo = &NAME_INFO;
}

fn point() -> DynType {
    let layout = Layout::from_size_align(16, 8).unwrap();
    DynType::new_struct(
        layout,
        vec![(0, DynType::new_struct_with_static_type::<Meters>(vec![])), (8, DynType::ref_to(DynType::Unknown))],
    )
}

#[test]
fn dyn_type_field_projection() {
    let p = point();
    assert!(p.proj_field(0).unwrap().is::<Meters>());
    assert!(matches!(p.proj_field(8), Ok(DynType::Ref(_))));
    assert!(matches!(p.proj_field(4), Err(ProjectionError)));
    assert!(matches!(p.project(Projection::Field { byte_offset: 8 }), Ok(DynType::Ref(_))));
    assert!(matches!(p.proj_deref(), Err(ProjectionError)));
    assert_eq!(p.layout().size(), 16);
}

#[test]
fn dyn_type_deref_and_index() {
    let r = DynType::ref_to(point());
    assert!(matches!(r.project(Projection::Deref), Ok(DynType::Struct(_))));
    assert!(matches!(r.clone_kind(), CloneKind::Copy));
    assert!(!r.has_drop_fn());
    let a = DynType::array_of(DynType::new_struct_with_static_type::<Name>(vec![]), Some(3));
    assert!(a.project(Projection::StaticIndex(1)).unwrap().is::<Name>());
    assert!(a.proj_dynamic_index().unwrap().is::<Name>());
    assert!(matches!(a.proj_deref(), Err(ProjectionError)));
    assert!(matches!(point().project(Projection::StaticIndex(0)), Err(ProjectionError)));
}

#[test]
fn dyn_type_static_descriptions() {
    let m = DynType::new_struct_with_static_type::<Meters>(vec![]);
    let n = DynType::new_struct_with_static_type::<Name>(vec![]);
    assert!(m.is::<Meters>());
    assert!(!m.is::<Name>());
    assert!(n.has_drop_fn());
    assert!(!m.has_drop_fn());
    assert!(matches!(m.clone_kind(), CloneKind::Copy));
    assert!(matches!(n.clone_kind(), CloneKind::Uncloneable));
    assert!(matches!(DynType::Unknown.clone_kind(), CloneKind::Uncloneable));
    assert!(m.static_ty().unwrap().is::<Meters>());
    assert!(DynType::Unknown.static_ty().is_none());
}

#[test]
fn dyn_type_supertypes() {
    let m = DynType::new_struct_with_static_type::<Meters>(vec![]);
    assert!(DynType::Unknown.is_supertype_of(&m));
    assert!(!m.is_supertype_of(&DynType::Unknown));
    let r1 = DynType::ref_to(DynType::Unknown);
    let r2 = DynType::ref_to(DynType::Unknown);
    assert!(r1.is_supertype_of(&r2));
    assert!(!r1.is_supertype_of(&DynType::ref_to(point())));
    // distinct struct descriptions are distinct types, even with equal fields
    assert!(!point().is_supertype_of(&point()));
    assert!(!m.is_supertype_of(&DynType::new_struct_with_static_type::<Meters>(vec![])));
    assert!(!m.is_supertype_of(&r1));
}

#[test]
fn lifetime_ptr_map_offsets_the_address() {
    let p = LifetimePtr::from_addr(100).map(|a| a + 8);
    assert_eq!(p.get(), 108);
    let q = LifetimePtrMut::from_addr(64).map(|a| a - 4);
    assert_eq!(q.get(), 60);
}

#[test]
fn dyn_type_clone_keeps_shape() {
    let p = point();
    let q = p.clone();
    assert_eq!(q.layout().size(), 16);
    assert!(q.proj_field(0).unwrap().is::<Meters>());
    assert!(matches!(DynType::ref_to(point()).clone(), DynType::Ref(_)));
}

#[test]
fn dyn_ptr_projections_follow_the_shape() {
    let ptr = DynPtr::new(LifetimePtr::from_addr(4096), point());
    assert!(ptr.proj_field(8).is_ok());
    let ptr = DynPtr::new(LifetimePtr::from_addr(4096), point());
    assert!(matches!(ptr.proj_field(4), Err(ProjectionError)));
    let ptr = DynPtr::new(LifetimePtr::from_addr(4096), point());
    assert!(matches!(ptr.proj_index(2), Err(ProjectionError)));
    let arr = DynType::array_of(point(), Some(4));
    let ptr = DynPtr::new(LifetimePtr::from_addr(4096), arr);
    assert!(ptr.proj_index(3).is_ok());
}

#[test]
fn dyn_ptr_mut_projections_follow_the_shape() {
    let ptr = DynPtrMut::new(LifetimePtrMut::from_addr(64), point());
    assert!(ptr.proj_field(0).is_ok());
    let ptr = DynPtrMut::new(LifetimePtrMut::from_addr(64), point());
    assert!(matches!(ptr.proj_field(1), Err(ProjectionError)));
    let arr = DynType::array_of(DynType::ref_to(DynType::Unknown), None);
    let ptr = DynPtrMut::new(LifetimePtrMut::from_addr(64), arr);
    assert!(ptr.proj_index(5).is_ok());
    let ptr = DynPtrMut::new(LifetimePtrMut::from_addr(64), DynType::Unknown);
    assert!(matches!(ptr.proj_index(0), Err(ProjectionError)));
}

#[test]
fn dyn_type_debug_string() {
    assert_eq!(point().debug_string(), "{ 0: Meters, 8: &<unknown type>, }");
    let a = DynType::array_of(DynType::new_struct_with_static_type::<Name>(vec![]), Some(1234));
    assert_eq!(a.debug_string(), "[Name; 1234]");
    let b = DynType::array_of(DynType::ref_to(DynType::Unknown), None);
    assert_eq!(b.debug_string(), "[&<unknown type>; ?]");
    let c = DynType::new_struct_with_static_type::<Meters>(vec![(4, DynType::Unknown), (10, point())]);
    assert_eq!(c.debug_string(), "Meters + { 4: <unknown type>, 10: { 0: Meters, 8: &<unknown type>, }, }");
    assert_eq!(DynType::Unknown.debug_string(), "<unknown type>");
}
