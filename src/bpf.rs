//! The eBPF backend, over rbpf's disassembled instructions.
use crate::address::Address;
use crate::instruction::Instruction;
use rbpf::disassembler::HLInsn;
use vstd::prelude::*;

verus! {

#[verifier::external_type_specification]
pub struct ExHLInsn(HLInsn);

/// The instruction class of jumps, as `rbpf::ebpf::BPF_JMP`.
pub const BPF_JMP: u8 = 0x05;

/// The unconditional jump opcode, as `rbpf::ebpf::JA`.
pub const JA: u8 = 0x05;

/// The call opcode, as `rbpf::ebpf::CALL`.
pub const CALL: u8 = 0x85;

/// The tail call opcode, as `rbpf::ebpf::TAIL_CALL`.
pub const TAIL_CALL: u8 = 0x8d;

/// The exit opcode, as `rbpf::ebpf::EXIT`.
pub const EXIT: u8 = 0x95;

/// Whether an opcode is a jump within the program (not a call or an exit).
pub open spec fn is_local_jump_opcode(opc: u8) -> bool {
    (opc & 0x07) == BPF_JMP && opc != CALL && opc != TAIL_CALL && opc != EXIT
}

/// An eBPF instruction, at an index of its program.
#[derive(Debug)]
pub struct BpfInstruction {
    /// The index of the instruction in its program.
    pub idx: u64,
    /// The disassembled instruction.
    pub insn: HLInsn,
}

impl BpfInstruction {
    /// Create a `BpfInstruction` at index `idx` from a disassembled
    /// instruction.
    pub fn new(idx: u64, insn: HLInsn) -> (r: Self)
        ensures
            r.idx == idx,
            r.insn == insn,
    {
        BpfInstruction { idx, insn }
    }

    /// The disassembled instruction.
    pub fn insn(&self) -> (r: &HLInsn)
        ensures
            *r == self.insn,
    {
        &self.insn
    }
}

impl Instruction for BpfInstruction {
    open spec fn spec_address(&self) -> Address {
        Address { address: self.idx }
    }

    open spec fn spec_is_call(&self) -> bool {
        self.insn.opc == CALL
    }

    open spec fn spec_is_local_conditional_jump(&self) -> bool {
        is_local_jump_opcode(self.insn.opc) && self.insn.opc != JA
    }

    open spec fn spec_is_local_jump(&self) -> bool {
        is_local_jump_opcode(self.insn.opc)
    }

    open spec fn spec_is_return(&self) -> bool {
        self.insn.opc == EXIT
    }

    /// A local jump's target is its own index plus its offset, wrapping
    /// around the address space.
    open spec fn spec_target_address(&self) -> Option<Address> {
        if is_local_jump_opcode(self.insn.opc) {
            Some(Address { address: ((self.idx as int + self.insn.off as int) % 0x1_0000_0000_0000_0000) as u64 })
        } else {
            None
        }
    }

    fn address(&self) -> (r: Address) {
        Address::new(self.idx)
    }

    fn mnemonic(&self) -> &str {
        self.insn.name.as_str()
    }

    fn comment(&self) -> Option<String> {
        None
    }

    fn is_call(&self) -> (r: bool) {
        let r = self.insn.opc == CALL;
        assert(r == self.spec_is_call());
        r
    }

    fn is_local_conditional_jump(&self) -> (r: bool) {
        let r = self.is_local_jump() && self.insn.opc != JA;
        assert(r == self.spec_is_local_conditional_jump());
        r
    }

    fn is_local_jump(&self) -> (r: bool) {
        let r = (self.insn.opc & 0x07) == BPF_JMP && self.insn.opc != CALL && self.insn.opc != TAIL_CALL
            && self.insn.opc != EXIT;
        assert(r == self.spec_is_local_jump());
        r
    }

    fn is_return(&self) -> (r: bool) {
        let r = self.insn.opc == EXIT;
        assert(r == self.spec_is_return());
        r
    }

    fn target_address(&self) -> (r: Option<Address>) {
        if self.is_local_jump() {
            let target: u64 = if self.insn.off >= 0 {
                self.idx.wrapping_add(self.insn.off as u64)
            } else {
                self.idx.wrapping_sub((-(self.insn.off as i32)) as u64)
            };
            assert(target == ((self.idx as int + self.insn.off as int) % 0x1_0000_0000_0000_0000) as u64);
            Some(Address::new(target))
        } else {
            None
        }
    }
}

} // verus!
