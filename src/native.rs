//! The x86 backend over the Capstone engine's decoded instructions.
use crate::address::Address;
use crate::instruction::Instruction;
use ::capstone::{Capstone, Insn};
use vstd::prelude::*;

verus! {

#[verifier::external_type_specification]
#[verifier::external_body]
pub struct ExCapstone(Capstone);

#[verifier::external_type_specification]
#[verifier::external_body]
pub struct ExInsn<'a>(Insn<'a>);

/// The group of jumps, as Capstone's `CS_GRP_JUMP`.
pub const GROUP_JUMP: u32 = 1;

/// The group of calls, as Capstone's `CS_GRP_CALL`.
pub const GROUP_CALL: u32 = 2;

/// The group of returns, as Capstone's `CS_GRP_RET`.
pub const GROUP_RET: u32 = 3;

/// The far jump, as Capstone's `X86_INS_LJMP`.
pub const X86_INS_LJMP: u32 = 171;

/// The near jump, as Capstone's `X86_INS_JMP`.
pub const X86_INS_JMP: u32 = 172;

/// Relies on `Capstone::insn_detail` and `InsnDetail::groups`: the groups
/// of the instruction, or `None` when its detail is unavailable.
#[verifier::external_body]
fn insn_groups(cs: &Capstone, insn: &Insn) -> (r: Option<Vec<u32>>) {
    match cs.insn_detail(insn) {
        Ok(detail) => Some(detail.groups().iter().map(|g| u32::from(g.0)).collect()),
        Err(_) => None,
    }
}

/// Relies on `Insn::id`: the instruction's id.
#[verifier::external_body]
fn insn_id(insn: &Insn) -> (r: u32) {
    insn.id().0
}

/// Relies on `Insn::address`: the instruction's address.
#[verifier::external_body]
fn insn_address(insn: &Insn) -> (r: u64) {
    insn.address()
}

/// Relies on `Insn::mnemonic`: the mnemonic, when Capstone provides it.
#[verifier::external_body]
fn insn_mnemonic(insn: &Insn) -> (r: Option<String>) {
    insn.mnemonic().map(|m| m.to_string())
}

/// Relies on `Insn::op_str`: the operands as text, when Capstone provides
/// them.
#[verifier::external_body]
fn insn_op_str(insn: &Insn) -> (r: Option<String>) {
    insn.op_str().map(|m| m.to_string())
}

/// An instruction decoded by the Capstone engine.
#[derive(Debug)]
pub struct CapstoneInstruction<'i> {
    /// The decoded instruction.
    pub insn: &'i Insn<'i>,
    /// Its address.
    pub address: u64,
    /// Its Capstone instruction id.
    pub id: u32,
    /// The groups it belongs to, when its detail is available.
    pub groups: Option<Vec<u32>>,
    /// Its mnemonic, when Capstone provides it.
    pub mnemonic: Option<String>,
    /// Its operands as text, when Capstone provides them.
    pub op_str: Option<String>,
}

/// Whether `groups` lists `group`.
pub open spec fn in_group(groups: Option<Seq<u32>>, group: u32) -> bool {
    match groups {
        Some(gs) => gs.contains(group),
        None => false,
    }
}

impl<'i> CapstoneInstruction<'i> {
    /// Wrap an instruction that `cs` decoded.
    pub fn new(insn: &'i Insn<'i>, cs: &Capstone) -> (r: Self)
        ensures
            r.insn == insn,
    {
        let groups = insn_groups(cs, insn);
        let id = insn_id(insn);
        let address = insn_address(insn);
        let mnemonic = insn_mnemonic(insn);
        let op_str = insn_op_str(insn);
        CapstoneInstruction { insn, address, id, groups, mnemonic, op_str }
    }

    /// The groups of the instruction, when its detail is available.
    pub open spec fn spec_groups(&self) -> Option<Seq<u32>> {
        match self.groups {
            Some(gs) => Some(gs@),
            None => None,
        }
    }

    /// The instruction's id.
    pub open spec fn spec_id(&self) -> u32 {
        self.id
    }

    /// Whether the instruction belongs to `group`; `false` when its detail
    /// is unavailable.
    pub fn is_group_match(&self, group: u32) -> (r: bool)
        ensures
            r == in_group(self.spec_groups(), group),
    {
        match &self.groups {
            Some(gs) => {
                let mut i: usize = 0;
                while i < gs.len()
                    invariant
                        self.groups == Some(*gs),
                        i <= gs@.len(),
                        forall|j: int| 0 <= j < i ==> gs@[j] != group,
                    decreases gs@.len() - i,
                {
                    if gs[i] == group {
                        assert(gs@[i as int] == group);
                        return true;
                    }
                    i = i + 1;
                }
                false
            },
            None => false,
        }
    }

    /// The instruction as text: mnemonic and operands, space separated.
    pub fn text(&self) -> Option<String> {
        match (&self.mnemonic, &self.op_str) {
            (Some(m), Some(o)) => {
                let mut t = m.clone();
                t.append(" ");
                t.append(o.as_str());
                Some(t)
            },
            _ => None,
        }
    }

    /// The decoded instruction.
    pub fn insn(&self) -> (r: &Insn<'i>)
        ensures
            *r == *self.insn,
    {
        self.insn
    }
}

impl<'i> Instruction for CapstoneInstruction<'i> {
    open spec fn spec_address(&self) -> Address {
        Address { address: self.address }
    }

    open spec fn spec_is_call(&self) -> bool {
        in_group(self.spec_groups(), GROUP_CALL)
    }

    /// A local jump other than the unconditional `jmp`: the `jcc` family,
    /// `jcxz`, the `loop` family and `xbegin`.
    open spec fn spec_is_local_conditional_jump(&self) -> bool {
        self.spec_is_local_jump() && self.id != X86_INS_JMP
    }

    open spec fn spec_is_local_jump(&self) -> bool {
        in_group(self.spec_groups(), GROUP_JUMP) && self.id != X86_INS_LJMP
    }

    open spec fn spec_is_return(&self) -> bool {
        in_group(self.spec_groups(), GROUP_RET)
    }

    open spec fn spec_target_address(&self) -> Option<Address> {
        None
    }

    fn address(&self) -> (r: Address) {
        Address::new(self.address)
    }

    fn mnemonic(&self) -> &str {
        match &self.mnemonic {
            Some(m) => m.as_str(),
            None => "",
        }
    }

    fn comment(&self) -> Option<String> {
        None
    }

    fn is_call(&self) -> (r: bool) {
        let r = self.is_group_match(GROUP_CALL);
        assert(r == self.spec_is_call());
        r
    }

    fn is_local_conditional_jump(&self) -> (r: bool) {
        let r = self.is_local_jump() && self.id != X86_INS_JMP;
        assert(r == self.spec_is_local_conditional_jump());
        r
    }

    fn is_local_jump(&self) -> (r: bool) {
        let r = self.is_group_match(GROUP_JUMP) && self.id != X86_INS_LJMP;
        assert(r == self.spec_is_local_jump());
        r
    }

    fn is_return(&self) -> (r: bool) {
        let r = self.is_group_match(GROUP_RET);
        assert(r == self.spec_is_return());
        r
    }

    fn target_address(&self) -> (r: Option<Address>) {
        None
    }
}

} // verus!
