//! The x86 backend, over burst's decoded instructions.
use crate::address::Address;
use crate::instruction::Instruction;
use ::burst::x86::{OperandType, X86Instruction};
use vstd::prelude::*;

verus! {

#[verifier::external_type_specification]
#[verifier::external_body]
pub struct ExX86Instruction(X86Instruction);

/// The operation number of a near call, as burst's `InstructionOperation::CALL`.
pub const OP_CALL: i32 = 22;

/// The operation number of a far call, as burst's `InstructionOperation::CALLF`.
pub const OP_CALLF: i32 = 21;

/// The operation number of a near jump, as burst's `InstructionOperation::JMP`.
pub const OP_JMP: i32 = 157;

/// The operation number of a far jump, as burst's `InstructionOperation::JMPF`.
pub const OP_JMPF: i32 = 156;

/// The operation number of a near return, as burst's `InstructionOperation::RETN`.
pub const OP_RETN: i32 = 316;

/// The operation number of a far return, as burst's `InstructionOperation::RETF`.
pub const OP_RETF: i32 = 315;

/// The operation number of `jcxz`, as burst's `InstructionOperation::JCXZ`.
pub const OP_JCXZ: i32 = 398;

/// The operation number of `jecxz`, as burst's `InstructionOperation::JECXZ`.
pub const OP_JECXZ: i32 = 399;

/// The operation number of `jo`, as burst's `InstructionOperation::JO`.
pub const OP_JO: i32 = 401;

/// The operation number of `jno`, as burst's `InstructionOperation::JNO`.
pub const OP_JNO: i32 = 402;

/// The operation number of `jb`, as burst's `InstructionOperation::JB`.
pub const OP_JB: i32 = 403;

/// The operation number of `jae`, as burst's `InstructionOperation::JAE`.
pub const OP_JAE: i32 = 404;

/// The operation number of `je`, as burst's `InstructionOperation::JE`.
pub const OP_JE: i32 = 405;

/// The operation number of `jne`, as burst's `InstructionOperation::JNE`.
pub const OP_JNE: i32 = 406;

/// The operation number of `jbe`, as burst's `InstructionOperation::JBE`.
pub const OP_JBE: i32 = 407;

/// The operation number of `ja`, as burst's `InstructionOperation::JA`.
pub const OP_JA: i32 = 408;

/// The operation number of `js`, as burst's `InstructionOperation::JS`.
pub const OP_JS: i32 = 409;

/// The operation number of `jns`, as burst's `InstructionOperation::JNS`.
pub const OP_JNS: i32 = 410;

/// The operation number of `jpe`, as burst's `InstructionOperation::JPE`.
pub const OP_JPE: i32 = 411;

/// The operation number of `jpo`, as burst's `InstructionOperation::JPO`.
pub const OP_JPO: i32 = 412;

/// The operation number of `jl`, as burst's `InstructionOperation::JL`.
pub const OP_JL: i32 = 413;

/// The operation number of `jge`, as burst's `InstructionOperation::JGE`.
pub const OP_JGE: i32 = 414;

/// The operation number of `jle`, as burst's `InstructionOperation::JLE`.
pub const OP_JLE: i32 = 415;

/// The operation number of `jg`, as burst's `InstructionOperation::JG`.
pub const OP_JG: i32 = 416;

/// The operation number of `loop`, as burst's `InstructionOperation::LOOP`.
pub const OP_LOOP: i32 = 168;

/// The operation number of `loope`, as burst's `InstructionOperation::LOOPE`.
pub const OP_LOOPE: i32 = 169;

/// The operation number of `loopne`, as burst's `InstructionOperation::LOOPNE`.
pub const OP_LOOPNE: i32 = 170;

/// Whether operation number `op` is a call.
pub open spec fn is_call_op(op: i32) -> bool {
    op == OP_CALL || op == OP_CALLF
}

/// Whether operation number `op` is a conditional jump or a `loop`.
pub open spec fn is_conditional_jump_op(op: i32) -> bool {
    op == OP_JCXZ
        || op == OP_JECXZ
        || op == OP_JO
        || op == OP_JNO
        || op == OP_JB
        || op == OP_JAE
        || op == OP_JE
        || op == OP_JNE
        || op == OP_JBE
        || op == OP_JA
        || op == OP_JS
        || op == OP_JNS
        || op == OP_JPE
        || op == OP_JPO
        || op == OP_JL
        || op == OP_JGE
        || op == OP_JLE
        || op == OP_JG
        || op == OP_LOOP
        || op == OP_LOOPE
        || op == OP_LOOPNE
}

/// Whether operation number `op` is a jump within the code, conditional or
/// not.
pub open spec fn is_jump_op(op: i32) -> bool {
    is_conditional_jump_op(op) || op == OP_JMP || op == OP_JMPF
}

/// Whether operation number `op` is a return.
pub open spec fn is_return_op(op: i32) -> bool {
    op == OP_RETN || op == OP_RETF
}

/// Relies on burst's `InstructionOperation`, a `#[repr(i32)]` enum: the
/// number of the instruction's operation.
#[verifier::external_body]
fn x86_operation(insn: &X86Instruction) -> (r: i32) {
    insn.operation as i32
}

/// Relies on burst's `X86Operand`: the value of the first operand when it is
/// an immediate (`OperandType::IMM`), as an unsigned 64-bit number.
#[verifier::external_body]
fn x86_first_immediate(insn: &X86Instruction) -> (r: Option<u64>) {
    match insn.operands[0].operand {
        OperandType::IMM => Some(insn.operands[0].immediate as u64),
        _ => None,
    }
}

/// Relies on burst's `Instruction::mnemonic` for `X86Instruction`: the name
/// of the operation.
#[verifier::external_body]
fn x86_mnemonic(insn: &X86Instruction) -> (r: String) {
    ::burst::Instruction::mnemonic(insn).to_string()
}

/// Relies on `burst::x86::format_instruction_string` with the format
/// `"%i %o"`: the mnemonic and the operands; `None` when it fails.
#[verifier::external_body]
fn x86_text(insn: &X86Instruction) -> (r: Option<String>) {
    let mut out = String::new();
    match ::burst::x86::format_instruction_string(&mut out, "%i %o", None, 0, insn) {
        Ok(()) => Some(out),
        Err(_) => None,
    }
}

/// An x86 instruction decoded by burst, at an address.
#[derive(Debug)]
pub struct BurstInstruction {
    /// The address of the instruction.
    pub address: u64,
    /// The decoded instruction.
    pub insn: X86Instruction,
    /// The number of its operation (burst's `InstructionOperation`).
    pub operation: i32,
    /// The value of its first operand, when that is an immediate.
    pub immediate: Option<u64>,
    /// Its mnemonic.
    pub mnemonic: String,
    /// Its text as burst writes it, when burst can.
    pub text: Option<String>,
}

impl BurstInstruction {
    /// Create a `BurstInstruction` at `address` from a decoded instruction.
    pub fn new(address: u64, insn: X86Instruction) -> (r: Self)
        ensures
            r.address == address,
            r.insn == insn,
    {
        let operation = x86_operation(&insn);
        let immediate = x86_first_immediate(&insn);
        let mnemonic = x86_mnemonic(&insn);
        let text = x86_text(&insn);
        BurstInstruction { address, insn, operation, immediate, mnemonic, text }
    }

    /// The instruction as burst writes it: mnemonic, then operands.
    pub fn text(&self) -> (r: Option<String>)
        ensures
            r == self.text,
    {
        match &self.text {
            Some(t) => Some(t.clone()),
            None => None,
        }
    }

    /// The decoded instruction.
    pub fn insn(&self) -> (r: &X86Instruction)
        ensures
            *r == self.insn,
    {
        &self.insn
    }
}

impl Instruction for BurstInstruction {
    open spec fn spec_address(&self) -> Address {
        Address { address: self.address }
    }

    open spec fn spec_is_call(&self) -> bool {
        is_call_op(self.operation)
    }

    open spec fn spec_is_local_conditional_jump(&self) -> bool {
        is_conditional_jump_op(self.operation)
    }

    open spec fn spec_is_local_jump(&self) -> bool {
        is_jump_op(self.operation)
    }

    open spec fn spec_is_return(&self) -> bool {
        is_return_op(self.operation)
    }

    /// The immediate first operand of a call or jump.
    open spec fn spec_target_address(&self) -> Option<Address> {
        if is_call_op(self.operation) || is_jump_op(self.operation) {
            match self.immediate {
                Some(a) => Some(Address { address: a }),
                None => None,
            }
        } else {
            None
        }
    }

    fn address(&self) -> (r: Address) {
        Address::new(self.address)
    }

    fn mnemonic(&self) -> &str {
        self.mnemonic.as_str()
    }

    fn comment(&self) -> Option<String> {
        None
    }

    fn is_call(&self) -> (r: bool) {
        let op = self.operation;
        op == OP_CALL || op == OP_CALLF
    }

    fn is_local_conditional_jump(&self) -> (r: bool) {
        let op = self.operation;
        let r = op == OP_JCXZ
            || op == OP_JECXZ
            || op == OP_JO
            || op == OP_JNO
            || op == OP_JB
            || op == OP_JAE
            || op == OP_JE
            || op == OP_JNE
            || op == OP_JBE
            || op == OP_JA
            || op == OP_JS
            || op == OP_JNS
            || op == OP_JPE
            || op == OP_JPO
            || op == OP_JL
            || op == OP_JGE
            || op == OP_JLE
            || op == OP_JG
            || op == OP_LOOP
            || op == OP_LOOPE
            || op == OP_LOOPNE;
        assert(r == self.spec_is_local_conditional_jump());
        r
    }

    fn is_local_jump(&self) -> (r: bool) {
        let op = self.operation;
        let r = self.is_local_conditional_jump() || op == OP_JMP || op == OP_JMPF;
        assert(r == self.spec_is_local_jump());
        r
    }

    fn is_return(&self) -> (r: bool) {
        let op = self.operation;
        op == OP_RETN || op == OP_RETF
    }

    fn target_address(&self) -> (r: Option<Address>) {
        if self.is_call() || self.is_local_jump() {
            match self.immediate {
                Some(a) => Some(Address::new(a)),
                None => None,
            }
        } else {
            None
        }
    }
}

} // verus!
