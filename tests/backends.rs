use capstone::arch::{BuildsCapstone, BuildsCapstoneSyntax};
use capstone::Capstone;
use disassemble::{
    Address, BpfInstruction, BurstInstruction, CapstoneInstruction, ControlFlowGraph, Error, Function, Instruction, Memory, Module,
    Segment, Symbol, WasmInstruction,
};
use parity_wasm::elements::{BlockType, Instruction as Op, Instructions};
use std::ops::Range;

#[test]
fn bpf_test() {
    let prog = &[
        0xb7, 0x00, 0x00, 0x00, 0x00, 0x00, 0x00, 0x00, // mov r0, 0
        0x79, 0x12, 0x40, 0x00, 0x00, 0x00, 0x00, 0x00, // load ptr from r1[0x40] to r2
        0x07, 0x02, 0x00, 0x00, 0x05, 0x00, 0x00, 0x00, // add r2, 5
        0x79, 0x11, 0x50, 0x00, 0x00, 0x00, 0x00, 0x00, // load ptr from r1[0x50] to r1
        0x2d, 0x12, 0x03, 0x00, 0x00, 0x00, 0x00, 0x00, // if r2 > r1 skip 3 instructions
        0x71, 0x20, 0x00, 0x00, 0x00, 0x00, 0x00, 0x00, // load r2 (= *(mem + 5)) into r0
        0x67, 0x00, 0x00, 0x00, 0x38, 0x00, 0x00, 0x00, // r0 >>= 56
        0xc7, 0x00, 0x00, 0x00, 0x38, 0x00, 0x00, 0x00, // r0 <<= 56 (arsh)
        0x95, 0x00, 0x00, 0x00, 0x00, 0x00, 0x00, 0x00, // exit
    ];

    let v = rbpf::disassembler::to_insn_vec(prog);
    let is = v
        .into_iter()
        .enumerate()
        .map(|(idx, insn)| BpfInstruction::new(idx as u64, insn))
        .collect::<Vec<_>>();

    let f = Function::new(Symbol::new(Address::new(100000), Some("test")), is);

    assert!(f.control_flow_graph.entry_block.is_some());
    assert_eq!(f.control_flow_graph.graph.node_count(), 3);
}

#[test]
fn bpf_jump_kinds_and_targets() {
    let prog = &[
        0x2d, 0x12, 0x03, 0x00, 0x00, 0x00, 0x00, 0x00, // jgt r2, r1, +3
        0x05, 0x00, 0xff, 0xff, 0x00, 0x00, 0x00, 0x00, // ja -1
        0x85, 0x00, 0x00, 0x00, 0x01, 0x00, 0x00, 0x00, // call 1
        0x95, 0x00, 0x00, 0x00, 0x00, 0x00, 0x00, 0x00, // exit
    ];
    let is: Vec<BpfInstruction> = rbpf::disassembler::to_insn_vec(prog)
        .into_iter()
        .enumerate()
        .map(|(idx, insn)| BpfInstruction::new(idx as u64, insn))
        .collect();
    assert!(is[0].is_local_conditional_jump());
    assert_eq!(is[0].target_address(), Some(Address::new(3)));
    assert!(is[1].is_local_jump());
    assert!(!is[1].is_local_conditional_jump());
    assert_eq!(is[1].target_address(), Some(Address::new(0)));
    assert!(is[2].is_call());
    assert!(!is[2].is_local_jump());
    assert_eq!(is[2].target_address(), None);
    assert!(is[3].is_return());
    assert_eq!(is[3].address(), Address::new(3));
    assert_eq!(is[3].mnemonic(), "exit");
}

#[test]
fn wasm_instruction_kinds() {
    let call = WasmInstruction::new(3, Op::Call(7));
    assert!(call.is_call());
    assert_eq!(call.target_address(), Some(Address::new(7)));
    assert_eq!(call.address(), Address::new(3));
    assert_eq!(call.mnemonic(), "call");
    assert_eq!(call.text(), "call 7");

    let br_if = WasmInstruction::new(0, Op::BrIf(1));
    assert!(br_if.is_local_conditional_jump());
    assert!(br_if.is_local_jump());
    assert_eq!(br_if.target_address(), None);
    assert_eq!(br_if.mnemonic(), "br_if");

    let br = WasmInstruction::new(0, Op::Br(0));
    assert!(br.is_local_jump());
    assert!(!br.is_local_conditional_jump());

    let iff = WasmInstruction::new(0, Op::If(BlockType::NoResult));
    assert!(iff.is_local_conditional_jump());

    let ret = WasmInstruction::new(0, Op::Return);
    assert!(ret.is_return());
    assert!(ret.is_block_terminator());

    let load = WasmInstruction::new(0, Op::I32Load(2, 4));
    assert_eq!(load.mnemonic(), "i32.load");
    assert!(!load.is_block_terminator());
}

#[test]
fn wasm_function_from_body() {
    let body = Instructions::new(vec![Op::I32Const(1), Op::Call(2), Op::Drop, Op::Return, Op::End]);
    let f = Function::from_wasm(Symbol::new(Address::new(0), Some("f")), &body).unwrap();
    assert_eq!(f.instructions.len(), 5);
    assert_eq!(f.instructions[4].address(), Address::new(4));
    assert_eq!(f.control_flow_graph.graph.node_count(), 3);
}

#[test]
fn wasm_module_names_imports_over_exports() {
    let bodies = vec![
        Instructions::new(vec![Op::End]),
        Instructions::new(vec![Op::Nop, Op::End]),
        Instructions::new(vec![Op::End]),
    ];
    let exports = vec![(0, "first".to_string()), (1, "second".to_string()), (1, "again".to_string())];
    let imports = vec![(0, "imported".to_string())];
    let m = Module::from_wasm_sections(&exports, &imports, &bodies).unwrap();
    assert_eq!(m.functions.len(), 3);
    assert_eq!(m.functions[0].symbol.name.as_deref(), Some("imported"));
    assert_eq!(m.functions[1].symbol.name.as_deref(), Some("again"));
    assert_eq!(m.functions[2].symbol.name, None);
    assert_eq!(m.functions[2].symbol.address, Address::new(2));
    assert_eq!(m.functions[1].instructions.len(), 2);
}

#[test]
fn symbol_keeps_name_and_address() {
    let s = Symbol::new(Address::new(42), Some("main"));
    assert_eq!(s.address, Address::new(42));
    assert_eq!(s.name.as_deref(), Some("main"));
    assert_eq!(Symbol::new(Address::new(1), None).name, None);
}

#[derive(Debug)]
struct Bytes {
    start: u64,
    data: Vec<u8>,
}

impl Segment for Bytes {
    fn holds(&self, address: Address, length: u64) -> bool {
        self.contains(&address, length)
    }

    fn range(&self) -> Range<Address> {
        Address::new(self.start)..Address::new(self.start + self.data.len() as u64)
    }

    fn contains(&self, address: &Address, length: u64) -> bool {
        address.address >= self.start
            && address.address + length <= self.start + self.data.len() as u64
    }

    fn spec_read_bytes(&self, address: Address, length: u64) -> Result<Vec<u8>, Error> {
        self.read_bytes(&address, length).map(|b| b.to_vec())
    }

    fn read_bytes(&self, address: &Address, length: u64) -> Result<&[u8], Error> {
        let from = (address.address - self.start) as usize;
        Ok(&self.data[from..from + length as usize])
    }
}

#[test]
fn capstone_jmp_is_not_conditional() {
    let cs = Capstone::new()
        .x86()
        .mode(capstone::arch::x86::ArchMode::Mode64)
        .detail(true)
        .build()
        .unwrap();
    // jmp +0; je +0
    let buf = cs.disasm_all(&[0xeb, 0x00, 0x74, 0x00], 0).unwrap();
    let is: Vec<CapstoneInstruction> = buf.iter().map(|insn| CapstoneInstruction::new(insn, &cs)).collect();
    assert!(is[0].is_local_jump());
    assert!(!is[0].is_local_conditional_jump());
    assert!(is[1].is_local_conditional_jump());
}

#[test]
fn burst_conditional_jump_kinds() {
    // jz +2, jmp +2
    let je = BurstInstruction::new(0, burst::x86::disassemble_64(&[0x74, 0x02], 0, 2).unwrap());
    assert!(je.is_local_conditional_jump());
    assert!(je.is_local_jump());
    let jmp = BurstInstruction::new(0, burst::x86::disassemble_64(&[0xeb, 0x02], 0, 2).unwrap());
    assert!(jmp.is_local_jump());
    assert!(!jmp.is_local_conditional_jump());
}

#[test]
fn empty_memory_has_no_segment() {
    let memory: Memory<Bytes> = Memory::new();
    assert!(matches!(memory.read_bytes(&Address::new(0), 4), Err(Error::NoSegment)));
}

#[test]
fn empty_instruction_list_has_no_graph() {
    let is: Vec<WasmInstruction> = vec![];
    let cfg = ControlFlowGraph::new(&is);
    assert!(cfg.entry_block.is_none());
    assert_eq!(cfg.graph.edge_count(), 0);
}

#[test]
fn burst_test() {
    let code = &[0x55, 0x48, 0x8b, 0x05, 0xb8, 0x13, 0x00, 0x00];

    if let Ok(insn) = burst::x86::disassemble_64(code, 0, code.len()) {
        let bi = BurstInstruction::new(0, insn);
        assert_eq!(Some("push rbp".to_string()), bi.text());
    }
}

#[test]
fn burst_call_and_return_kinds() {
    // call rel32 +0x10 (to 0x15 from address 0), then ret.
    let call = burst::x86::disassemble_64(&[0xe8, 0x10, 0x00, 0x00, 0x00], 0, 5).unwrap();
    let call = BurstInstruction::new(0, call);
    assert!(call.is_call());
    assert_eq!(call.mnemonic(), "call");
    assert!(call.is_block_terminator());
    let ret = BurstInstruction::new(5, burst::x86::disassemble_64(&[0xc3], 5, 1).unwrap());
    assert!(ret.is_return());
    assert_eq!(ret.target_address(), None);
    assert_eq!(ret.address(), Address::new(5));
}

#[test]
fn capstone_test() {
    let code = &[0x55, 0x48, 0x8b, 0x05, 0xb8, 0x13, 0x00, 0x00];

    let cs = Capstone::new()
        .x86()
        .mode(capstone::arch::x86::ArchMode::Mode32)
        .syntax(capstone::arch::x86::ArchSyntax::Att)
        .detail(true)
        .build()
        .unwrap();

    let buf = cs.disasm_all(code, 0).unwrap();
    let is = buf
        .iter()
        .map(|insn| CapstoneInstruction::new(insn, &cs))
        .collect::<Vec<_>>();
    let f = Function::new(Symbol::new(Address::new(100000), Some("test")), is);

    assert!(f.control_flow_graph.entry_block.is_some());
}

#[test]
fn capstone_groups_decide_kinds() {
    let cs = Capstone::new()
        .x86()
        .mode(capstone::arch::x86::ArchMode::Mode64)
        .detail(true)
        .build()
        .unwrap();
    // call +0; ret
    let buf = cs.disasm_all(&[0xe8, 0x00, 0x00, 0x00, 0x00, 0xc3], 0x1000).unwrap();
    let is: Vec<CapstoneInstruction> = buf.iter().map(|insn| CapstoneInstruction::new(insn, &cs)).collect();
    assert_eq!(is.len(), 2);
    assert!(is[0].is_call());
    assert!(is[0].is_group_match(2));
    assert_eq!(is[0].mnemonic(), "call");
    assert!(is[1].is_return());
    assert_eq!(is[1].address(), Address::new(0x1005));
    assert_eq!(is[1].text(), Some("ret ".to_string()));
}

#[test]
fn wasm_module_from_decoded_bytes() {
    let bytes = [
        0x00, 0x61, 0x73, 0x6d, 0x01, 0x00, 0x00, 0x00, // magic, version
        0x01, 0x04, 0x01, 0x60, 0x00, 0x00, // types: () -> ()
        0x03, 0x02, 0x01, 0x00, // functions: one of type 0
        0x07, 0x08, 0x01, 0x04, b'm', b'a', b'i', b'n', 0x00, 0x00, // export "main" = function 0
        0x0a, 0x04, 0x01, 0x02, 0x00, 0x0b, // code: one body, `end`
    ];
    let m: parity_wasm::elements::Module = parity_wasm::deserialize_buffer(&bytes).unwrap();
    let module = Module::from_wasm(&m).unwrap();
    assert_eq!(module.functions.len(), 1);
    assert_eq!(module.functions[0].symbol.name.as_deref(), Some("main"));
    assert_eq!(module.functions[0].symbol.address, Address::new(0));
    assert_eq!(module.functions[0].instructions.len(), 1);
    assert_eq!(module.functions[0].instructions[0].mnemonic(), "end");
}

#[test]
fn wasm_module_without_code_section_is_none() {
    let bytes = [0x00, 0x61, 0x73, 0x6d, 0x01, 0x00, 0x00, 0x00];
    let m: parity_wasm::elements::Module = parity_wasm::deserialize_buffer(&bytes).unwrap();
    assert!(Module::from_wasm(&m).is_none());
}
