use oxitortoise::lir::{BinaryOpcode, RegInfo, SingleValInsn, UnaryOpcode, ValType, Value, Reg};
use oxitortoise::reflection::F64Bits;

fn regs(tys: &[ValType]) -> Vec<RegInfo> {
    tys.iter().map(|t| RegInfo { ty: *t, name: None }).collect()
}

#[test]
fn val_type_layouts() {
    assert_eq!(ValType::I8.layout().size(), 1);
    assert_eq!(ValType::I32.layout().size(), 4);
    assert_eq!(ValType::I32.layout().align(), 4);
    assert_eq!(ValType::I64.layout().size(), 8);
    assert_eq!(ValType::F64.layout().size(), 8);
    assert_eq!(ValType::Ptr.layout().size(), std::mem::size_of::<usize>());
    assert_eq!(ValType::FnPtr.layout().align(), std::mem::align_of::<usize>());
}

#[test]
fn output_types_of_single_value_instructions() {
    let r = regs(&[ValType::I32, ValType::I32, ValType::F64, ValType::I64, ValType::I8]);
    let const_f = SingleValInsn::Const { val: Value::F64(F64Bits(0)) };
    assert_eq!(const_f.output_type(&r), ValType::F64);
    let add = SingleValInsn::BinaryOp { op: BinaryOpcode::IAdd, lhs: Reg(0), rhs: Reg(1) };
    assert_eq!(add.output_type(&r), ValType::I32);
    let lt = SingleValInsn::BinaryOp { op: BinaryOpcode::SLt, lhs: Reg(0), rhs: Reg(1) };
    assert_eq!(lt.output_type(&r), ValType::I8);
    let neg = SingleValInsn::UnaryOp { op: UnaryOpcode::FNeg, operand: Reg(2) };
    assert_eq!(neg.output_type(&r), ValType::F64);
    let wrap = SingleValInsn::UnaryOp { op: UnaryOpcode::I64ToI32, operand: Reg(3) };
    assert_eq!(wrap.output_type(&r), ValType::I32);
    let and = SingleValInsn::BinaryOp { op: BinaryOpcode::And, lhs: Reg(4), rhs: Reg(4) };
    assert_eq!(and.output_type(&r), ValType::I8);
    let addr = SingleValInsn::StackAddr { offset: 4 };
    assert_eq!(addr.output_type(&r), ValType::Ptr);
}

#[test]
fn constant_equality_compares_type_and_bits() {
    assert!(Value::I32(3) == Value::I32(3));
    assert!(Value::I32(3) != Value::I64(3));
    assert!(Value::I8(3) == Value::I8(3));
    assert!(Value::I8(3) != Value::I8(4));
    assert!(Value::F64(F64Bits(7)) == Value::F64(F64Bits(7)));
    assert_eq!(Value::null().ty(), ValType::Ptr);
}

#[test]
fn machine_type_layouts() {
    assert_eq!(ValType::I8.layout().size(), 1);
    assert_eq!(ValType::I8.layout().align(), 1);
    assert_eq!(ValType::I32.layout().size(), 4);
    assert_eq!(ValType::I64.layout().size(), 8);
    assert_eq!(ValType::F64.layout().size(), 8);
    assert_eq!(ValType::Ptr.layout().size(), std::mem::size_of::<usize>());
    assert_eq!(ValType::FnPtr.layout().size(), std::mem::size_of::<usize>());
}
