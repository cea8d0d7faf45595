use oxitortoise::dyn_type::DynType;
use oxitortoise::ffi_translate::{ComponentIndex, FfiCompose};
use oxitortoise::install::{FnTableSlotAllocator, InstallMirError};
use oxitortoise::mir_builder::FunctionStub;

#[derive(Debug, PartialEq, Clone, Copy)]
struct Point {
    x: i32,
    y: i32,
}

impl FfiCompose for Point {
    type Components = (i32, i32);

    fn decompose(self) -> Self::Components {
        (self.x, self.y)
    }

    fn recompose(components: Self::Components) -> Self {
        Point { x: components.0, y: components.1 }
    }
}

#[test]
fn ffi_compose_round_trip() {
    let p = Point { x: 3, y: -4 };
    let parts = p.decompose();
    assert_eq!(parts, (3, -4));
    assert_eq!(Point::recompose(parts), p);
}

#[test]
fn component_index_names_the_component_type() {
    let first: <(u8, u64) as ComponentIndex<0>>::Component = 7u8;
    let second: <(u8, u64) as ComponentIndex<1>>::Component = 9u64;
    let only: <(bool,) as ComponentIndex<0>>::Component = true;
    assert_eq!(first, 7);
    assert_eq!(second, 9);
    assert!(only);
}

struct CountingAllocator {
    next: usize,
}

impl FnTableSlotAllocator for CountingAllocator {
    fn allocate_slot(&mut self) -> usize {
        let slot = self.next;
        self.next += 1;
        slot
    }
}

#[test]
fn fn_table_slots_come_from_the_allocator() {
    let mut alloc = CountingAllocator { next: 5 };
    assert_eq!(alloc.allocate_slot(), 5);
    assert_eq!(alloc.allocate_slot(), 6);
}

#[test]
fn install_errors_are_distinct() {
    assert_ne!(InstallMirError::InstallerPoisoned, InstallMirError::RuntimeError);
    assert_eq!(InstallMirError::RuntimeError, InstallMirError::RuntimeError);
}

#[test]
fn function_stub_holds_its_return_type() {
    let stub = FunctionStub { return_ty: DynType::ref_to(DynType::Unknown) };
    assert!(matches!(stub.return_ty, DynType::Ref(_)));
}
