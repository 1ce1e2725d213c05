//! The WebAssembly backend, over parity-wasm's decoded instructions.
use crate::address::{string_from_chars, Address};
use crate::cfg::MAX_INSTRUCTIONS;
use crate::function::Function;
use crate::instruction::Instruction;
use crate::module::Module;
use crate::symbol::Symbol;
use parity_wasm::elements::{
    External, Instruction as WasmOpcode, Instructions, Internal, Module as WasmModule,
};
use vstd::prelude::*;

verus! {

#[verifier::external_type_specification]
#[verifier::external_body]
pub struct ExWasmOpcode(WasmOpcode);

#[verifier::external_type_specification]
#[verifier::external_body]
pub struct ExInstructions(Instructions);

#[verifier::external_type_specification]
#[verifier::external_body]
pub struct ExWasmModule(WasmModule);

/// Relies on `Module::export_section` and `ExportEntry`: each export's
/// function index (`None` when it exports something else) and name, in
/// order; `None` when there is no export section.
#[verifier::external_body]
fn wasm_exports(m: &WasmModule) -> (r: Option<Vec<(Option<u32>, String)>>) {
    m.export_section().map(|section| {
        section.entries().iter().map(|e| {
            let index = match e.internal() {
                Internal::Function(index) => Some(*index),
                _ => None,
            };
            (index, e.field().to_string())
        }).collect()
    })
}

/// Relies on `Module::import_section` and `ImportEntry`: each import's
/// function index (`None` when it imports something else) and name, in
/// order; `None` when there is no import section.
#[verifier::external_body]
fn wasm_imports(m: &WasmModule) -> (r: Option<Vec<(Option<u32>, String)>>) {
    m.import_section().map(|section| {
        section.entries().iter().map(|e| {
            let index = match e.external() {
                External::Function(index) => Some(*index),
                _ => None,
            };
            (index, e.field().to_string())
        }).collect()
    })
}

/// Relies on `Module::code_section` and `FuncBody::code`: the bodies of the
/// code section, in order; `None` when there is no code section.
#[verifier::external_body]
fn wasm_bodies(m: &WasmModule) -> (r: Option<Vec<Instructions>>) {
    m.code_section().map(|code| code.bodies().iter().map(|body| body.code().clone()).collect())
}

/// What the control-flow analysis needs to know of a WebAssembly
/// instruction.
#[derive(Clone, Copy, Debug, PartialEq, Eq, Structural)]
pub enum WasmOp {
    /// `call`, with the index of the called function.
    Call(u32),
    /// `call_indirect`.
    CallIndirect,
    /// `if`.
    If,
    /// `br_if`.
    BrIf,
    /// `br_table`.
    BrTable,
    /// `br`.
    Br,
    /// `return`.
    Return,
    /// Any other instruction.
    Other,
}

/// Relies on parity-wasm's `Instruction` variants: tells apart those that
/// transfer control.
#[verifier::external_body]
fn wasm_op(insn: &WasmOpcode) -> (r: WasmOp) {
    match insn {
        WasmOpcode::Call(index) => WasmOp::Call(*index),
        WasmOpcode::CallIndirect(..) => WasmOp::CallIndirect,
        WasmOpcode::If(..) => WasmOp::If,
        WasmOpcode::BrIf(..) => WasmOp::BrIf,
        WasmOpcode::BrTable(..) => WasmOp::BrTable,
        WasmOpcode::Br(..) => WasmOp::Br,
        WasmOpcode::Return => WasmOp::Return,
        _ => WasmOp::Other,
    }
}

/// Relies on parity-wasm's `Display` for `Instruction`: the text of the
/// instruction, its mnemonic followed by its immediates, space separated.
#[verifier::external_body]
fn wasm_text(insn: &WasmOpcode) -> (r: Vec<char>) {
    format!("{}", insn).chars().collect()
}

/// The instructions of a function body, in order.
pub uninterp spec fn body_elements(body: Instructions) -> Seq<WasmOpcode>;

/// Relies on the derived `Clone` of parity-wasm's `Instruction`: an equal
/// instruction.
#[verifier::external_body]
fn wasm_clone(insn: &WasmOpcode) -> (r: WasmOpcode)
    ensures
        r == *insn,
{
    insn.clone()
}

/// Relies on `Instructions::elements`: the instructions of a body, in order.
#[verifier::external_body]
fn wasm_elements(body: &Instructions) -> (r: &[WasmOpcode])
    ensures
        r@ == body_elements(*body),
{
    body.elements()
}

/// The characters of `text` before its first space.
pub open spec fn first_word(text: Seq<char>) -> Seq<char>
    decreases text.len(),
{
    if text.len() == 0 || text[0] == ' ' {
        Seq::empty()
    } else {
        seq![text[0]] + first_word(text.drop_first())
    }
}

/// The characters of `text` before its first space.
fn first_word_of(text: &Vec<char>) -> (r: Vec<char>)
    ensures
        r@ == first_word(text@),
{
    let mut word: Vec<char> = Vec::new();
    let mut i: usize = 0;
    assert(text@.skip(0) =~= text@);
    while i < text.len() && text[i] != ' '
        invariant
            i <= text@.len(),
            forall|j: int| 0 <= j < i ==> text@[j] != ' ',
            first_word(text@) == word@ + first_word(text@.skip(i as int)),
        decreases text@.len() - i,
    {
        assert(text@.skip(i as int).drop_first() =~= text@.skip(i as int + 1));
        word.push(text[i]);
        i = i + 1;
    }
    assert(first_word(text@.skip(i as int)) =~= Seq::<char>::empty());
    word
}

/// A WebAssembly instruction, at an index of its function body.
#[derive(Debug)]
pub struct WasmInstruction {
    /// The index of the instruction in its function body.
    pub idx: u64,
    /// The decoded instruction.
    pub insn: WasmOpcode,
    /// What the control-flow analysis knows of it.
    pub op: WasmOp,
    /// Its text as parity-wasm writes it.
    pub text: String,
    /// Its mnemonic: the first word of its text.
    pub mnemonic: String,
}

impl WasmInstruction {
    /// Create a `WasmInstruction` at index `idx` from a decoded instruction.
    pub fn new(idx: u64, insn: WasmOpcode) -> (r: Self)
        ensures
            r.idx == idx,
            r.insn == insn,
            r.mnemonic@ == first_word(r.text@),
    {
        let op = wasm_op(&insn);
        let chars = wasm_text(&insn);
        let word = first_word_of(&chars);
        WasmInstruction {
            idx,
            insn,
            op,
            text: string_from_chars(&chars),
            mnemonic: string_from_chars(&word),
        }
    }

    /// The instruction's text: its mnemonic followed by its immediates.
    pub fn text(&self) -> (r: String)
        ensures
            r@ == self.text@,
    {
        self.text.clone()
    }

    /// The decoded instruction.
    pub fn opcode(&self) -> (r: &WasmOpcode)
        ensures
            *r == self.insn,
    {
        &self.insn
    }
}

impl Instruction for WasmInstruction {
    open spec fn spec_address(&self) -> Address {
        Address { address: self.idx }
    }

    open spec fn spec_is_call(&self) -> bool {
        self.op is Call || self.op is CallIndirect
    }

    open spec fn spec_is_local_conditional_jump(&self) -> bool {
        match self.op {
            WasmOp::If | WasmOp::BrIf | WasmOp::BrTable => true,
            _ => false,
        }
    }

    open spec fn spec_is_local_jump(&self) -> bool {
        match self.op {
            WasmOp::If | WasmOp::BrIf | WasmOp::BrTable | WasmOp::Br => true,
            _ => false,
        }
    }

    open spec fn spec_is_return(&self) -> bool {
        self.op is Return
    }

    open spec fn spec_target_address(&self) -> Option<Address> {
        match self.op {
            WasmOp::Call(a) => Some(Address { address: a as u64 }),
            _ => None,
        }
    }

    fn address(&self) -> (r: Address) {
        Address::new(self.idx)
    }

    fn mnemonic(&self) -> &str {
        self.mnemonic.as_str()
    }

    fn comment(&self) -> Option<String> {
        None
    }

    fn is_call(&self) -> (r: bool) {
        match self.op {
            WasmOp::Call(..) | WasmOp::CallIndirect => true,
            _ => false,
        }
    }

    fn is_local_conditional_jump(&self) -> (r: bool) {
        let r = matches!(self.op, WasmOp::If | WasmOp::BrIf | WasmOp::BrTable);
        assert(r == self.spec_is_local_conditional_jump());
        r
    }

    fn is_local_jump(&self) -> (r: bool) {
        let r = self.is_local_conditional_jump() || matches!(self.op, WasmOp::Br);
        assert(r == self.spec_is_local_jump());
        r
    }

    fn is_return(&self) -> (r: bool) {
        match self.op {
            WasmOp::Return => true,
            _ => false,
        }
    }

    fn target_address(&self) -> (r: Option<Address>) {
        match self.op {
            WasmOp::Call(a) => Some(Address::new(a as u64)),
            _ => None,
        }
    }
}

/// The name that the last entry for `index` gives, if any.
pub open spec fn last_name(entries: Seq<(u32, String)>, index: u32) -> Option<Seq<char>>
    decreases entries.len(),
{
    if entries.len() == 0 {
        None
    } else if entries.last().0 == index {
        Some(entries.last().1@)
    } else {
        last_name(entries.drop_last(), index)
    }
}

/// The name of function `index`: an import's name wins over an export's,
/// and a later entry over an earlier one.
pub open spec fn symbol_name(exports: Seq<(u32, String)>, imports: Seq<(u32, String)>, index: u32) -> Option<Seq<char>> {
    match last_name(imports, index) {
        Some(n) => Some(n),
        None => last_name(exports, index),
    }
}

/// The name that the last entry for `index` gives, if any.
fn find_name(entries: &[(u32, String)], index: u32) -> (r: Option<&str>)
    ensures
        r matches Some(n) ==> last_name(entries@, index) == Some(n@),
        r is None ==> last_name(entries@, index) is None,
{
    let mut i = entries.len();
    assert(entries@.take(i as int) =~= entries@);
    while i > 0
        invariant
            i <= entries@.len(),
            last_name(entries@, index) == last_name(entries@.take(i as int), index),
        decreases i,
    {
        assert(entries@.take(i as int).drop_last() =~= entries@.take(i - 1));
        if entries[i - 1].0 == index {
            return Some(entries[i - 1].1.as_str());
        }
        i = i - 1;
    }
    None
}

/// Whether `f` is the function made from the body `body` at position
/// `position`, named `name`.
pub open spec fn is_wasm_function(f: Function<WasmInstruction>, position: nat, name: Option<Seq<char>>, body: Seq<WasmOpcode>) -> bool {
    &&& f.symbol.address == Address { address: position as u64 }
    &&& (f.symbol.name is None <==> name is None)
    &&& (name matches Some(n) ==> f.symbol.name matches Some(sn) && sn@ == n)
    &&& is_function_of_body(f, f.symbol, body)
}

/// Whether `f` is the function made from the instructions `body` with the
/// symbol `symbol`: one instruction per element, each at its index.
pub open spec fn is_function_of_body(f: Function<WasmInstruction>, symbol: Symbol, body: Seq<WasmOpcode>) -> bool {
    &&& f.symbol == symbol
    &&& f.instructions@.len() == body.len()
    &&& forall|i: int|
        0 <= i < body.len() ==> (#[trigger] f.instructions@[i]).idx == i as u64 && f.instructions@[i].insn == body[i]
    &&& f.control_flow_graph.is_cfg_of(f.instructions@)
}

impl Function<WasmInstruction> {
    /// Create a function from a WebAssembly body, the instructions taking
    /// their positions as addresses. `None` exactly when the body has more
    /// than `MAX_INSTRUCTIONS` instructions.
    pub fn from_wasm(symbol: Symbol, instructions: &Instructions) -> (r: Option<Function<WasmInstruction>>)
        ensures
            r is None <==> body_elements(*instructions).len() > MAX_INSTRUCTIONS,
            r matches Some(f) ==> is_function_of_body(f, symbol, body_elements(*instructions)),
    {
        let elements = wasm_elements(instructions);
        if elements.len() > MAX_INSTRUCTIONS {
            return None;
        }
        let mut is: Vec<WasmInstruction> = Vec::new();
        let mut k: usize = 0;
        while k < elements.len()
            invariant
                k <= elements@.len(),
                elements@ == body_elements(*instructions),
                is@.len() == k,
                forall|i: int| 0 <= i < k ==> (#[trigger] is@[i]).idx == i as u64 && is@[i].insn == elements@[i],
            decreases elements@.len() - k,
        {
            is.push(WasmInstruction::new(k as u64, wasm_clone(&elements[k])));
            k = k + 1;
        }
        Some(Function::new(symbol, is))
    }
}

/// The entries of `entries` that carry a function index, in order.
pub open spec fn function_entries(entries: Seq<(Option<u32>, String)>) -> Seq<(u32, String)>
    decreases entries.len(),
{
    if entries.len() == 0 {
        Seq::empty()
    } else {
        let rest = function_entries(entries.drop_last());
        match entries.last().0 {
            Some(index) => rest.push((index, entries.last().1)),
            None => rest,
        }
    }
}

/// The entries of `entries` that carry a function index, in order.
fn keep_function_entries(entries: Option<Vec<(Option<u32>, String)>>) -> (r: Vec<(u32, String)>)
    ensures
        entries matches Some(es) ==> r@ == function_entries(es@),
        entries is None ==> r@.len() == 0,
{
    let mut out: Vec<(u32, String)> = Vec::new();
    match entries {
        Some(es) => {
            let mut k: usize = 0;
            while k < es.len()
                invariant
                    k <= es@.len(),
                    out@ == function_entries(es@.take(k as int)),
                decreases es@.len() - k,
            {
                assert(es@.take(k + 1).drop_last() =~= es@.take(k as int));
                match es[k].0 {
                    Some(index) => {
                        let name = es[k].1.clone();
                        out.push((index, name));
                        assert(out@ == function_entries(es@.take(k + 1))) by {
                            assert(es@.take(k + 1).last() == es@[k as int]);
                        }
                    },
                    None => {},
                }
                k = k + 1;
            }
            assert(es@.take(es@.len() as int) =~= es@);
        },
        None => {},
    }
    out
}

impl Module<WasmInstruction> {
    /// Build a module from a decoded WebAssembly module: a function per body
    /// of its code section, named by its function exports and imports (see
    /// `from_wasm_sections`). `None` when there is no code section or a body
    /// is too long.
    pub fn from_wasm(m: &WasmModule) -> (r: Option<Self>) {
        let exports = keep_function_entries(wasm_exports(m));
        let imports = keep_function_entries(wasm_imports(m));
        match wasm_bodies(m) {
            Some(bodies) => {
                if bodies.len() > u32::MAX as usize {
                    return None;
                }
                Module::from_wasm_sections(exports.as_slice(), imports.as_slice(), bodies.as_slice())
            },
            None => None,
        }
    }

    /// Build a module from the function bodies of a WebAssembly code
    /// section, with the names given by the function exports and imports as
    /// (function index, name) pairs. The function of the body at position `i`
    /// has address `i` and the name `symbol_name(exports, imports, i)`. `None`
    /// exactly when a body has more than `MAX_INSTRUCTIONS` instructions.
    pub fn from_wasm_sections(exports: &[(u32, String)], imports: &[(u32, String)], bodies: &[Instructions]) -> (r: Option<Self>)
        requires
            bodies@.len() <= u32::MAX,
        ensures
            r is None <==> exists|i: int| 0 <= i < bodies@.len() && body_elements(#[trigger] bodies@[i]).len() > MAX_INSTRUCTIONS,
            r matches Some(m) ==> {
                &&& m.functions@.len() == bodies@.len()
                &&& forall|i: int| 0 <= i < m.functions@.len() ==> is_wasm_function(#[trigger] m.functions@[i], i as nat, symbol_name(exports@, imports@, i as u32), body_elements(bodies@[i]))
            },
    {
        let mut functions: Vec<Function<WasmInstruction>> = Vec::new();
        let mut k: usize = 0;
        while k < bodies.len()
            invariant
                k <= bodies@.len(),
                bodies@.len() <= u32::MAX,
                functions@.len() == k,
                forall|i: int| 0 <= i < k ==> is_wasm_function(#[trigger] functions@[i], i as nat, symbol_name(exports@, imports@, i as u32), body_elements(bodies@[i])),
                forall|i: int| 0 <= i < k ==> body_elements(#[trigger] bodies@[i]).len() <= MAX_INSTRUCTIONS,
            decreases bodies@.len() - k,
        {
            let index = k as u32;
            let name = match find_name(imports, index) {
                Some(n) => Some(n),
                None => find_name(exports, index),
            };
            let symbol = Symbol::new(Address::new(k as u64), name);
            match Function::from_wasm(symbol, &bodies[k]) {
                Some(f) => functions.push(f),
                None => {
                    assert(body_elements(bodies@[k as int]).len() > MAX_INSTRUCTIONS);
                    return None;
                },
            }
            k = k + 1;
        }
        Some(Module { functions })
    }
}

} // verus!
