//! A plain model of a Cranelift IR function: the parts of `cranelift_codegen::ir::Function`
//! that the conversion reads.
//!
//! Entities (values, instructions, blocks) are numbered as in Cranelift, and each table
//! of the model is indexed by entity number.
use vstd::prelude::*;

verus! {

/// A Cranelift type, by the name its `Debug` form gives (`types::I32`, `types::F64`, ...).
pub struct ClifType {
    pub name: String,
}

/// Where a value comes from (Cranelift's `ValueDef`).
#[derive(Clone, Copy, Debug, PartialEq, Eq, Structural)]
pub enum ValueDef {
    /// The value is result number `.1` of instruction `.0`.
    Result(u32, usize),
    /// The value is parameter number `.1` of block `.0`.
    Param(u32, usize),
    /// The value is the union of two other values.
    Union(u32, u32),
}

/// The opcodes the conversion distinguishes.
#[derive(Clone, Copy, Debug, PartialEq, Eq, Structural)]
pub enum Opcode {
    Iadd,
    Imul,
    Return,
    /// Any other Cranelift opcode.
    Other,
}

/// A value: its definition and its type.
pub struct ValueData {
    pub def: ValueDef,
    pub ty: ClifType,
}

/// An instruction: its opcode and its value arguments.
pub struct InstData {
    pub opcode: Opcode,
    pub args: Vec<u32>,
}

/// A block: its parameters and, when the block is in the layout, its instructions in
/// layout order.
pub struct BlockData {
    pub params: Vec<u32>,
    pub insts: Vec<u32>,
}

/// A Cranelift function.
pub struct ClifFunction {
    /// The function's name as Cranelift displays it (`%add`, `u0:1`, ...).
    pub name: String,
    /// The types of the signature's parameters.
    pub params: Vec<ClifType>,
    /// The types of the signature's returns.
    pub returns: Vec<ClifType>,
    /// All values, by number.
    pub values: Vec<ValueData>,
    /// All instructions, by number.
    pub insts: Vec<InstData>,
    /// All blocks, by number.
    pub blocks: Vec<BlockData>,
    /// The blocks of the layout, in layout order.
    pub layout: Vec<u32>,
    /// The entry block: the first block of the layout, if any.
    pub entry_block: Option<u32>,
    /// The blocks reachable from the entry block, in reverse post-order of the
    /// control-flow graph.
    pub rpo: Vec<u32>,
}

impl ClifFunction {
    /// The definition of value `v`.
    pub open spec fn def_of(&self, v: u32) -> ValueDef {
        self.values@[v as int].def
    }

    /// The arguments of instruction `i`.
    pub open spec fn args_of(&self, i: u32) -> Seq<u32> {
        self.insts@[i as int].args@
    }

    /// The opcode of instruction `i`.
    pub open spec fn opcode_of(&self, i: u32) -> Opcode {
        self.insts@[i as int].opcode
    }

    /// The instructions of block `b`.
    pub open spec fn insts_of(&self, b: u32) -> Seq<u32> {
        self.blocks@[b as int].insts@
    }

    /// The parameters of block `b`.
    pub open spec fn params_of(&self, b: u32) -> Seq<u32> {
        self.blocks@[b as int].params@
    }

    /// Every reference between the tables of the model is in range, entity numbers fit
    /// below `u32::MAX`, and the entry block is the first block of the layout and of the
    /// reverse post-order.
    pub open spec fn wf(&self) -> bool {
        &&& self.values@.len() < u32::MAX
        &&& self.insts@.len() < u32::MAX
        &&& self.blocks@.len() < u32::MAX
        &&& forall|v: int|
            0 <= v < self.values@.len() ==> match #[trigger] self.values@[v].def {
                ValueDef::Result(i, _) => i < self.insts@.len(),
                ValueDef::Param(b, _) => b < self.blocks@.len(),
                ValueDef::Union(x, y) => x < self.values@.len() && y < self.values@.len(),
            }
        &&& forall|i: int, j: int|
            0 <= i < self.insts@.len() && 0 <= j < self.insts@[i].args@.len() ==> #[trigger] self.insts@[i].args@[j]
                < self.values@.len()
        &&& forall|b: int, j: int|
            0 <= b < self.blocks@.len() && 0 <= j < self.blocks@[b].params@.len() ==> #[trigger] self.blocks@[b].params@[j]
                < self.values@.len()
        &&& forall|b: int, j: int|
            0 <= b < self.blocks@.len() && 0 <= j < self.blocks@[b].insts@.len() ==> #[trigger] self.blocks@[b].insts@[j]
                < self.insts@.len()
        &&& forall|k: int| 0 <= k < self.layout@.len() ==> #[trigger] self.layout@[k] < self.blocks@.len()
        &&& forall|k: int| 0 <= k < self.rpo@.len() ==> #[trigger] self.rpo@[k] < self.blocks@.len()
        &&& self.entry_block == (if self.layout@.len() > 0 {
            Some(self.layout@[0])
        } else {
            None
        })
        &&& self.entry_block == (if self.rpo@.len() > 0 {
            Some(self.rpo@[0])
        } else {
            None
        })
    }

    /// All parameters of block `b` have type `i32`.
    pub open spec fn block_params_i32(&self, b: u32) -> bool {
        forall|j: int|
            0 <= j < self.params_of(b).len() ==> (#[trigger] self.values@[self.params_of(b)[j] as int]).ty.name@
                == "types::I32"@
    }

    /// All parameter and return types of the signature are `i32`.
    pub open spec fn signature_i32(&self) -> bool {
        &&& forall|j: int| 0 <= j < self.params@.len() ==> (#[trigger] self.params@[j]).name@ == "types::I32"@
        &&& forall|j: int| 0 <= j < self.returns@.len() ==> (#[trigger] self.returns@[j]).name@ == "types::I32"@
    }

    /// The name starts with a one-byte character, so that dropping its first byte
    /// leaves a string.
    pub open spec fn name_droppable(&self) -> bool {
        self.name@.len() > 0 && (self.name@[0] as u32) < 128
    }

    /// `order` lists distinct blocks of the function, and every instruction sits at most
    /// once in the blocks of `order`.
    pub open spec fn blocks_unique(&self, order: Seq<u32>) -> bool {
        &&& forall|k: int| 0 <= k < order.len() ==> #[trigger] order[k] < self.blocks@.len()
        &&& order.no_duplicates()
        &&& forall|k1: int, j1: int, k2: int, j2: int|
            0 <= k1 < order.len() && 0 <= k2 < order.len() && 0 <= j1 < self.insts_of(order[k1]).len()
                && 0 <= j2 < self.insts_of(order[k2]).len() && (k1 != k2 || j1 != j2)
                ==> #[trigger] self.insts_of(order[k1])[j1] != #[trigger] self.insts_of(order[k2])[j2]
    }

    /// The layout lists distinct blocks, and every instruction sits at most once in the
    /// blocks of the layout.
    pub open spec fn layout_unique(&self) -> bool {
        self.blocks_unique(self.layout@)
    }
}

} // verus!
