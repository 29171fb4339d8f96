use vstd::prelude::*;

verus! {

/// One tagged variant of the instruction set, carrying zero, one, or two
/// immediate operands.  Jump targets and function entry addresses are indices
/// into the flat instruction vector once the linker has resolved them; before
/// linking they are placeholders to be patched.
#[derive(Debug, PartialEq)]
pub enum Opcode {
    Nop,
    ConstNull,
    ConstInt(i64),
    ConstString(String),
    Add2,
    Sub2,
    Mul2,
    Div2,
    Mod2,
    Rot2,
    Eq2,
    Neq2,
    Lt2,
    Le2,
    Gt2,
    Ge2,
    Exit,
    Discard,
    Store(usize),
    Load(usize),
    StoreGlobal(String),
    LoadGlobal(String),
    JmpIfTrue(usize),
    JmpAlways(usize),
    JmpIfFalse(usize),
    /// count of arguments
    CallNoKw(usize),
    /// function entry address, number of parameters
    CreateFunction(usize, usize),
    Return,
}

impl Clone for Opcode {
    fn clone(&self) -> (r: Self)
        ensures
            r == *self,
    {
        match self {
            Opcode::Nop => Opcode::Nop,
            Opcode::ConstNull => Opcode::ConstNull,
            Opcode::ConstInt(i) => Opcode::ConstInt(*i),
            Opcode::ConstString(s) => Opcode::ConstString(s.clone()),
            Opcode::Add2 => Opcode::Add2,
            Opcode::Sub2 => Opcode::Sub2,
            Opcode::Mul2 => Opcode::Mul2,
            Opcode::Div2 => Opcode::Div2,
            Opcode::Mod2 => Opcode::Mod2,
            Opcode::Rot2 => Opcode::Rot2,
            Opcode::Eq2 => Opcode::Eq2,
            Opcode::Neq2 => Opcode::Neq2,
            Opcode::Lt2 => Opcode::Lt2,
            Opcode::Le2 => Opcode::Le2,
            Opcode::Gt2 => Opcode::Gt2,
            Opcode::Ge2 => Opcode::Ge2,
            Opcode::Exit => Opcode::Exit,
            Opcode::Discard => Opcode::Discard,
            Opcode::Store(a) => Opcode::Store(*a),
            Opcode::Load(a) => Opcode::Load(*a),
            Opcode::StoreGlobal(s) => Opcode::StoreGlobal(s.clone()),
            Opcode::LoadGlobal(s) => Opcode::LoadGlobal(s.clone()),
            Opcode::JmpIfTrue(a) => Opcode::JmpIfTrue(*a),
            Opcode::JmpAlways(a) => Opcode::JmpAlways(*a),
            Opcode::JmpIfFalse(a) => Opcode::JmpIfFalse(*a),
            Opcode::CallNoKw(n) => Opcode::CallNoKw(*n),
            Opcode::CreateFunction(a, n) => Opcode::CreateFunction(*a, *n),
            Opcode::Return => Opcode::Return,
        }
    }
}

/// The net number of operand-stack cells an instruction adds (positive) or
/// removes (negative) in the shared-stack accounting: a call pops its callee
/// and arguments, and the value a callee's body leaves on the stack is the
/// value that `Return` hands back to the caller.
pub open spec fn op_stack_effect(op: Opcode) -> int {
    match op {
        Opcode::Nop => 0,
        Opcode::ConstNull => 1,
        Opcode::ConstInt(_) => 1,
        Opcode::ConstString(_) => 1,
        Opcode::Add2 => -1,
        Opcode::Sub2 => -1,
        Opcode::Mul2 => -1,
        Opcode::Div2 => -1,
        Opcode::Mod2 => -1,
        Opcode::Rot2 => 0,
        Opcode::Eq2 => -1,
        Opcode::Neq2 => -1,
        Opcode::Lt2 => -1,
        Opcode::Le2 => -1,
        Opcode::Gt2 => -1,
        Opcode::Ge2 => -1,
        Opcode::Exit => -1,
        Opcode::Discard => -1,
        Opcode::Store(_) => -1,
        Opcode::Load(_) => 1,
        Opcode::StoreGlobal(_) => -1,
        Opcode::LoadGlobal(_) => 1,
        Opcode::JmpIfTrue(_) => -1,
        Opcode::JmpAlways(_) => 0,
        Opcode::JmpIfFalse(_) => -1,
        Opcode::CallNoKw(n) => -(n as int),
        Opcode::CreateFunction(_, _) => 1,
        Opcode::Return => -1,
    }
}

} // verus!
