//! Low-level intermediate representation, intended to be converted to
//! platform-specific code (e.g. Wasm, CLIF).
//!
//! Each instruction in a function takes some number of inputs and has some
//! number of outputs. The outputs of instructions are assigned to mutable
//! local variables referred to as "registers". There are an unbounded number
//! of registers, and reusing registers to "save space" is not required. The
//! function body is a single instruction sequence, but instruction sequences
//! can "contain" other instruction sequences through compound instructions.
//! Control flow is structured: blocks, if-else, and loops mirror the
//! corresponding constructs of WebAssembly.

use vstd::prelude::*;
use crate::layout::Layout;
use vstd::layout::size_of;
use crate::reflection::F64Bits;

verus! {

/// The identifier of a user function of a program.
#[derive(Clone, Copy, Debug, PartialEq, Eq, Hash, Structural)]
pub struct FunctionId(pub u64);

/// A function of the host that compiled code can call.
#[derive(Debug, Clone)]
pub struct HostFunctionInfo {
    pub parameter_types: &'static [ValType],
    pub return_type: &'static [ValType],
    /// The address of the function.
    pub addr: usize,
    /// Meaningful on Wasm targets only. Import the function by this name.
    pub name: &'static str,
}

/// A reference to a host function.
#[derive(Debug, Clone, Copy)]
pub struct HostFunction(pub &'static HostFunctionInfo);

/// The type and the name of a register.
#[derive(Debug, PartialEq, Eq, Clone)]
pub struct RegInfo {
    pub ty: ValType,
    pub name: Option<String>,
}

/// The identifier of an instruction sequence within a function.
#[derive(PartialEq, Eq, Hash, Clone, Copy, Debug, Structural)]
pub struct InsnSeqId(pub usize);

/// A register of a function.
#[derive(PartialEq, Eq, Hash, Clone, Copy, Debug, Structural)]
pub struct Reg(pub usize);

/// A function of a program.
pub struct Function {
    /// The non-stack local variables in this function. Function arguments
    /// are stored in the local variables upon entering the function.
    pub registers: Vec<RegInfo>,
    pub parameters: Vec<Reg>,
    pub return_values: Vec<Reg>,
    /// The number of bytes to allocate on the stack for this function.
    pub stack_space: usize,
    pub body: Block,
    pub insn_seqs: Vec<Vec<InsnKind>>,
    pub debug_fn_name: Option<String>,
    pub is_entrypoint: bool,
}

/// An instruction.
#[derive(Clone)]
pub enum InsnKind {
    /// Produces a single value which is stored in the specified register.
    SingleVal { out: Reg, insn: SingleValInsn },
    /// Produces multiple values which are stored in the specified registers.
    MultiVal { out: Vec<Reg>, insn: MultiValInsn },
    /// Store a value into memory.
    MemStore { ty: ValType, offset: usize, ptr: Reg, value: Reg },
    /// Store a value onto the stack, at an offset from its top.
    StackStore { ty: ValType, offset: usize, value: Reg },
    /// Break out of the control flow constructs up to the instruction
    /// sequence `target`. This must be the last instruction within an
    /// instruction sequence.
    Break { target: InsnSeqId },
    /// Conditionally break out of control flow constructs.
    ConditionalBreak { target: InsnSeqId, condition: Reg },
    Block(Block),
    IfElse(IfElse),
    Loop(Loop),
}

/// An instruction that produces a single value.
#[derive(PartialEq, Eq, Clone)]
pub enum SingleValInsn {
    Const { val: Value },
    UserFunctionPtr { function: FunctionId },
    /// Add a compile-time offset to a pointer, producing a pointer to a
    /// subfield.
    DeriveField { offset: usize, ptr: Reg },
    /// Add a dynamic offset to a pointer, producing a pointer to an element
    /// of an array.
    DeriveElement { element_size: usize, ptr: Reg, index: Reg },
    /// Load a value from memory.
    MemLoad { ty: ValType, offset: usize, ptr: Reg },
    /// Load a value from the stack, at an offset from its top.
    StackLoad { ty: ValType, offset: usize },
    /// Get the address of a value on the stack.
    StackAddr { offset: usize },
    UnaryOp { op: UnaryOpcode, operand: Reg },
    /// The operation also determines the types of the inputs and outputs.
    BinaryOp { op: BinaryOpcode, lhs: Reg, rhs: Reg },
}

/// An instruction that produces any number of values.
#[derive(Clone)]
pub enum MultiValInsn {
    CallHostFunction { function: HostFunction, args: Vec<Reg> },
    CallUserFunction { function: FunctionId, args: Vec<Reg> },
    CallIndirectFunction { function: Reg, args: Vec<Reg> },
}

/// A constant value; pointers are held by their address and floating point
/// numbers by their bits.
#[derive(Debug, Clone, Copy)]
pub enum Value {
    I8(u8),
    I32(u32),
    I64(u64),
    F64(F64Bits),
    Ptr(usize),
    FnPtr(usize),
}

/// A block of code that may produce a value.
#[derive(PartialEq, Eq, Clone, Copy, Debug, Structural)]
pub struct Block {
    /// The instructions inside the block.
    pub body: InsnSeqId,
}

/// Two blocks, only one of which is entered.
#[derive(PartialEq, Eq, Clone, Copy, Debug, Structural)]
pub struct IfElse {
    /// The condition of the if-else.
    pub condition: Reg,
    /// The instructions inside the then branch.
    pub then_body: InsnSeqId,
    /// The instructions inside the else branch.
    pub else_body: InsnSeqId,
}

/// A block of code that is re-entered when it is broken out of.
#[derive(PartialEq, Eq, Clone, Copy, Debug, Structural)]
pub struct Loop {
    /// The instructions inside the loop.
    pub body: InsnSeqId,
}

/// The unary operations.
#[derive(Debug, PartialEq, Eq, Clone, Copy, Structural)]
pub enum UnaryOpcode {
    FNeg,
    Not,
    I64ToI32,
}

/// The binary operations that can be performed. `I` operations apply to
/// integer types, `S` to signed integer types, `U` to unsigned integer types
/// and `F` to floating point types. Pointers are unsigned integers at this
/// level.
#[derive(Debug, PartialEq, Eq, Clone, Copy, Structural)]
pub enum BinaryOpcode {
    IAdd,
    ISub,
    IMul,
    SLt,
    SGt,
    ULt,
    UGt,
    IEq,
    INeq,
    FAdd,
    FSub,
    FMul,
    FDiv,
    FLt,
    FLte,
    FGt,
    FGte,
    FEq,
    And,
    Or,
}

/// A machine-level type. These are just numbers that have no higher-level
/// semantic meaning.
#[derive(Clone, Copy, Debug, PartialEq, Eq, Hash, Structural)]
pub enum ValType {
    I8,
    I32,
    I64,
    F64,
    Ptr,
    FnPtr,
}

/// The layout of a value of a machine-level type; a float has the layout of
/// the 64 bits that encode it, and pointers have the layout of an address.
pub open spec fn val_type_layout(t: ValType) -> Layout {
    match t {
        ValType::I8 => Layout::spec_new::<u8>(),
        ValType::I32 => Layout::spec_new::<u32>(),
        ValType::I64 => Layout::spec_new::<u64>(),
        ValType::F64 => Layout::spec_new::<u64>(),
        ValType::Ptr => Layout::spec_new::<usize>(),
        ValType::FnPtr => Layout::spec_new::<usize>(),
    }
}

impl ValType {
    /// The memory layout of a value of this type.
    pub fn layout(&self) -> (r: Layout)
        ensures
            r == val_type_layout(*self),
            r.valid(),
            r.spec_size() == match *self {
                ValType::I8 => 1,
                ValType::I32 => 4,
                ValType::I64 | ValType::F64 => 8,
                _ => size_of::<usize>(),
            },
            *self is I8 ==> r.spec_align() == 1,
    {
        proof {
            broadcast use vstd::layout::layout_of_primitives, vstd::layout::align_properties, vstd::layout::align_nonzero;

            let a = vstd::layout::align_of::<u8>();
            assert(size_of::<u8>() == 1 && a > 0 && size_of::<u8>() % a == 0);
            assert(a == 1) by (nonlinear_arith)
                requires
                    a > 0,
                    1nat % a == 0,
            ;
        }
        match self {
            ValType::I8 => Layout::new::<u8>(),
            ValType::I32 => Layout::new::<u32>(),
            ValType::I64 => Layout::new::<u64>(),
            ValType::F64 => Layout::new::<u64>(),
            ValType::Ptr => Layout::new::<usize>(),
            ValType::FnPtr => Layout::new::<usize>(),
        }
    }
}

/// The type of a constant.
pub open spec fn value_type(v: Value) -> ValType {
    match v {
        Value::I8(_) => ValType::I8,
        Value::I32(_) => ValType::I32,
        Value::I64(_) => ValType::I64,
        Value::F64(_) => ValType::F64,
        Value::Ptr(_) => ValType::Ptr,
        Value::FnPtr(_) => ValType::FnPtr,
    }
}

/// Whether two constants are equal: of the same type and bits.
pub open spec fn value_eq(a: Value, b: Value) -> bool {
    match (a, b) {
        (Value::I8(x), Value::I8(y)) => x == y,
        (Value::I32(x), Value::I32(y)) => x == y,
        (Value::I64(x), Value::I64(y)) => x == y,
        (Value::F64(x), Value::F64(y)) => x.0 == y.0,
        (Value::Ptr(x), Value::Ptr(y)) => x == y,
        (Value::FnPtr(x), Value::FnPtr(y)) => x == y,
        _ => false,
    }
}

impl PartialEq for Value {
    fn eq(&self, other: &Self) -> (r: bool) {
        match (self, other) {
            (Value::I8(a), Value::I8(b)) => *a == *b,
            (Value::I32(a), Value::I32(b)) => *a == *b,
            (Value::I64(a), Value::I64(b)) => *a == *b,
            (Value::F64(a), Value::F64(b)) => a.0 == b.0,
            (Value::Ptr(a), Value::Ptr(b)) => *a == *b,
            (Value::FnPtr(a), Value::FnPtr(b)) => *a == *b,
            _ => false,
        }
    }
}

impl Eq for Value {

}

impl vstd::std_specs::cmp::PartialEqSpecImpl for Value {
    open spec fn obeys_eq_spec() -> bool {
        true
    }

    open spec fn eq_spec(&self, other: &Self) -> bool {
        value_eq(*self, *other)
    }
}

impl Value {
    /// The null pointer.
    pub fn null() -> (r: Value)
        ensures
            r == Value::Ptr(0),
    {
        Value::Ptr(0)
    }

    /// The type of this constant.
    pub fn ty(&self) -> (r: ValType)
        ensures
            r == value_type(*self),
    {
        match self {
            Value::I8(_) => ValType::I8,
            Value::I32(_) => ValType::I32,
            Value::I64(_) => ValType::I64,
            Value::F64(_) => ValType::F64,
            Value::Ptr(_) => ValType::Ptr,
            Value::FnPtr(_) => ValType::FnPtr,
        }
    }
}

/// The type of the result of a unary operation, if the operation applies to
/// the operand type.
pub open spec fn unary_op_output(op: UnaryOpcode, operand: ValType) -> Option<ValType> {
    match (op, operand) {
        (UnaryOpcode::I64ToI32, ValType::I64) => Some(ValType::I32),
        (UnaryOpcode::FNeg, ValType::F64) => Some(ValType::F64),
        (UnaryOpcode::Not, ValType::I8) => Some(ValType::I8),
        _ => None,
    }
}

/// The type of the result of a binary operation, if the operation applies to
/// the operand types: arithmetic keeps the operand type, comparisons give a
/// byte.
pub open spec fn binary_op_output(op: BinaryOpcode, lhs: ValType, rhs: ValType) -> Option<ValType> {
    match op {
        BinaryOpcode::IAdd | BinaryOpcode::ISub | BinaryOpcode::IMul => match (lhs, rhs) {
            (ValType::I32, ValType::I32) => Some(ValType::I32),
            (ValType::I64, ValType::I64) => Some(ValType::I64),
            (ValType::Ptr, ValType::Ptr) => Some(ValType::Ptr),
            _ => None,
        },
        BinaryOpcode::ULt | BinaryOpcode::UGt | BinaryOpcode::IEq | BinaryOpcode::INeq => match (lhs, rhs) {
            (ValType::I32, ValType::I32) => Some(ValType::I8),
            (ValType::I64, ValType::I64) => Some(ValType::I8),
            (ValType::Ptr, ValType::Ptr) => Some(ValType::I8),
            _ => None,
        },
        BinaryOpcode::SLt | BinaryOpcode::SGt => match (lhs, rhs) {
            (ValType::I32, ValType::I32) => Some(ValType::I8),
            (ValType::I64, ValType::I64) => Some(ValType::I8),
            _ => None,
        },
        BinaryOpcode::FAdd | BinaryOpcode::FSub | BinaryOpcode::FMul | BinaryOpcode::FDiv => match (lhs, rhs) {
            (ValType::F64, ValType::F64) => Some(ValType::F64),
            _ => None,
        },
        BinaryOpcode::FLt | BinaryOpcode::FLte | BinaryOpcode::FGt | BinaryOpcode::FGte | BinaryOpcode::FEq => {
            match (lhs, rhs) {
                (ValType::F64, ValType::F64) => Some(ValType::I8),
                _ => None,
            }
        },
        BinaryOpcode::And | BinaryOpcode::Or => match (lhs, rhs) {
            (ValType::I8, ValType::I8) => Some(ValType::I8),
            _ => None,
        },
    }
}

/// The type of the result of a unary operation; the operation must apply to
/// the operand type.
fn infer_unary_op_output_type(op: UnaryOpcode, operand: ValType) -> (r: ValType)
    requires
        unary_op_output(op, operand) is Some,
    ensures
        unary_op_output(op, operand) == Some(r),
{
    match (op, operand) {
        (UnaryOpcode::I64ToI32, ValType::I64) => ValType::I32,
        (UnaryOpcode::FNeg, ValType::F64) => ValType::F64,
        (UnaryOpcode::Not, ValType::I8) => ValType::I8,
        _ => {
            None::<()>.expect("TODO(mvp) add other combinations of ops and val types");
            ValType::I8
        },
    }
}

/// The type of the result of a binary operation; the operation must apply to
/// the operand types.
fn infer_binary_op_output_type(op: BinaryOpcode, lhs: ValType, rhs: ValType) -> (r: ValType)
    requires
        binary_op_output(op, lhs, rhs) is Some,
    ensures
        binary_op_output(op, lhs, rhs) == Some(r),
{
    let out = match op {
        BinaryOpcode::IAdd | BinaryOpcode::ISub | BinaryOpcode::IMul => match (lhs, rhs) {
            (ValType::I32, ValType::I32) => Some(ValType::I32),
            (ValType::I64, ValType::I64) => Some(ValType::I64),
            (ValType::Ptr, ValType::Ptr) => Some(ValType::Ptr),
            _ => None,
        },
        BinaryOpcode::ULt | BinaryOpcode::UGt | BinaryOpcode::IEq | BinaryOpcode::INeq => match (lhs, rhs) {
            (ValType::I32, ValType::I32) => Some(ValType::I8),
            (ValType::I64, ValType::I64) => Some(ValType::I8),
            (ValType::Ptr, ValType::Ptr) => Some(ValType::I8),
            _ => None,
        },
        BinaryOpcode::SLt | BinaryOpcode::SGt => match (lhs, rhs) {
            (ValType::I32, ValType::I32) => Some(ValType::I8),
            (ValType::I64, ValType::I64) => Some(ValType::I8),
            _ => None,
        },
        BinaryOpcode::FAdd | BinaryOpcode::FSub | BinaryOpcode::FMul | BinaryOpcode::FDiv => match (lhs, rhs) {
            (ValType::F64, ValType::F64) => Some(ValType::F64),
            _ => None,
        },
        BinaryOpcode::FLt | BinaryOpcode::FLte | BinaryOpcode::FGt | BinaryOpcode::FGte | BinaryOpcode::FEq => {
            match (lhs, rhs) {
                (ValType::F64, ValType::F64) => Some(ValType::I8),
                _ => None,
            }
        },
        BinaryOpcode::And | BinaryOpcode::Or => match (lhs, rhs) {
            (ValType::I8, ValType::I8) => Some(ValType::I8),
            _ => None,
        },
    };
    match out {
        Some(t) => t,
        None => {
            None::<()>.expect("Invalid operand types for operation");
            ValType::I8
        },
    }
}

/// The type of the value a single-value instruction produces, given the
/// types of the registers, if the instruction is well typed.
pub open spec fn single_output(insn: SingleValInsn, regs: Seq<RegInfo>) -> Option<ValType> {
    match insn {
        SingleValInsn::Const { val } => Some(value_type(val)),
        SingleValInsn::UserFunctionPtr { .. } => Some(ValType::FnPtr),
        SingleValInsn::DeriveField { .. } => Some(ValType::Ptr),
        SingleValInsn::DeriveElement { .. } => Some(ValType::Ptr),
        SingleValInsn::MemLoad { ty, .. } => Some(ty),
        SingleValInsn::StackLoad { ty, .. } => Some(ty),
        SingleValInsn::StackAddr { .. } => Some(ValType::Ptr),
        SingleValInsn::UnaryOp { op, operand } => if operand.0 < regs.len() {
            unary_op_output(op, regs[operand.0 as int].ty)
        } else {
            None
        },
        SingleValInsn::BinaryOp { op, lhs, rhs } => if lhs.0 < regs.len() && rhs.0 < regs.len() {
            binary_op_output(op, regs[lhs.0 as int].ty, regs[rhs.0 as int].ty)
        } else {
            None
        },
    }
}

/// Integer arithmetic keeps the type of its operands: adding, subtracting
/// or multiplying two registers of the same integer or pointer type gives a
/// value of that type.
pub proof fn law_int_arith_keeps_type(op: BinaryOpcode, lhs: Reg, rhs: Reg, regs: Seq<RegInfo>)
    requires
        op is IAdd || op is ISub || op is IMul,
        lhs.0 < regs.len(),
        rhs.0 < regs.len(),
        regs[lhs.0 as int].ty == regs[rhs.0 as int].ty,
        regs[lhs.0 as int].ty is I32 || regs[lhs.0 as int].ty is I64 || regs[lhs.0 as int].ty is Ptr,
    ensures
        single_output(SingleValInsn::BinaryOp { op, lhs, rhs }, regs) == Some(regs[lhs.0 as int].ty),
{
}

/// Comparisons and boolean operations give a boolean byte, and a floating
/// point operation on floats gives a float.
pub proof fn law_comparison_gives_byte(op: BinaryOpcode, t: ValType)
    ensures
        (op is ULt || op is UGt || op is IEq || op is INeq) && (t is I32 || t is I64 || t is Ptr)
            ==> binary_op_output(op, t, t) == Some(ValType::I8),
        (op is SLt || op is SGt) && (t is I32 || t is I64) ==> binary_op_output(op, t, t) == Some(ValType::I8),
        (op is And || op is Or) ==> binary_op_output(op, ValType::I8, ValType::I8) == Some(ValType::I8),
        (op is FAdd || op is FSub || op is FMul || op is FDiv) ==> binary_op_output(op, ValType::F64, ValType::F64)
            == Some(ValType::F64),
        (op is FLt || op is FLte || op is FGt || op is FGte || op is FEq) ==> binary_op_output(
            op,
            ValType::F64,
            ValType::F64,
        ) == Some(ValType::I8),
{
}

/// A binary operation applies only to two operands of the same type, and
/// only to the types of its kind: integer operations to 32- and 64-bit
/// integers and pointers (signed comparisons not to pointers), float
/// operations to floats, and boolean operations to bytes.
pub proof fn law_binary_operand_types(op: BinaryOpcode, lhs: ValType, rhs: ValType)
    ensures
        binary_op_output(op, lhs, rhs) is Some ==> lhs == rhs,
        binary_op_output(op, lhs, rhs) is Some && (op is IAdd || op is ISub || op is IMul || op is ULt || op is UGt
            || op is IEq || op is INeq) ==> (lhs is I32 || lhs is I64 || lhs is Ptr),
        binary_op_output(op, lhs, rhs) is Some && (op is SLt || op is SGt) ==> (lhs is I32 || lhs is I64),
        binary_op_output(op, lhs, rhs) is Some && (op is FAdd || op is FSub || op is FMul || op is FDiv || op is FLt
            || op is FLte || op is FGt || op is FGte || op is FEq) ==> lhs is F64,
        binary_op_output(op, lhs, rhs) is Some && (op is And || op is Or) ==> lhs is I8,
{
}

/// Narrowing takes a 64-bit integer to a 32-bit one, float negation keeps a
/// float, and boolean negation keeps a byte; no unary operation applies to
/// any other operand type.
pub proof fn law_unary_types(op: UnaryOpcode, t: ValType)
    ensures
        unary_op_output(UnaryOpcode::I64ToI32, ValType::I64) == Some(ValType::I32),
        unary_op_output(UnaryOpcode::FNeg, ValType::F64) == Some(ValType::F64),
        unary_op_output(UnaryOpcode::Not, ValType::I8) == Some(ValType::I8),
        unary_op_output(op, t) is Some ==> (op is I64ToI32 && t is I64) || (op is FNeg && t is F64) || (op is Not
            && t is I8),
{
}

impl SingleValInsn {
    /// The type of the value this instruction produces, given the registers
    /// of its function; the instruction must be well typed.
    pub fn output_type(&self, input_regs: &Vec<RegInfo>) -> (r: ValType)
        requires
            single_output(*self, input_regs@) is Some,
        ensures
            single_output(*self, input_regs@) == Some(r),
    {
        match self {
            SingleValInsn::Const { val } => val.ty(),
            SingleValInsn::UserFunctionPtr { .. } => ValType::FnPtr,
            SingleValInsn::DeriveField { .. } => ValType::Ptr,
            SingleValInsn::DeriveElement { .. } => ValType::Ptr,
            SingleValInsn::MemLoad { ty, .. } => *ty,
            SingleValInsn::StackLoad { ty, .. } => *ty,
            SingleValInsn::StackAddr { .. } => ValType::Ptr,
            SingleValInsn::UnaryOp { op, operand } => infer_unary_op_output_type(
                *op,
                input_regs[operand.0].ty,
            ),
            SingleValInsn::BinaryOp { op, lhs, rhs } => infer_binary_op_output_type(
                *op,
                input_regs[lhs.0].ty,
                input_regs[rhs.0].ty,
            ),
        }
    }
}

} // verus!
