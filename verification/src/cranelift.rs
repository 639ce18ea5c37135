//! Reading a `cranelift_codegen::ir::Function` into a [`ClifFunction`].
//!
//! Each accessor of Cranelift that the conversion reads is a trusted wrapper whose result
//! is named after the function it reads (the `clif_*` spec functions below).  The model is
//! assembled from those results by verified loops, so that [`extracted`] ties every table
//! of the model to the Cranelift function it came from.
use crate::clif::{BlockData, ClifFunction, ClifType, InstData, Opcode, ValueData, ValueDef};
use cranelift_codegen::dominator_tree::DominatorTree;
use cranelift_codegen::flowgraph::ControlFlowGraph;
use cranelift_codegen::ir::{
    Block, Function, Inst, InstructionData, Opcode as ClifOpcode, UserFuncName, Value as ClifValue,
    ValueDef as ClifValueDef,
};
use vstd::prelude::*;

verus! {

#[verifier::external_type_specification]
#[verifier::external_body]
pub struct ExFunction(Function);

/// The name of `func` as Cranelift displays it (`%add`).
pub uninterp spec fn clif_name(func: Function) -> Seq<char>;

/// The name of `func` can be displayed: it is a user name, or a test-case name whose
/// bytes are UTF-8.
pub uninterp spec fn clif_name_is_text(func: Function) -> bool;

/// The types of the parameters of the signature of `func`, in their `Debug` form.
pub uninterp spec fn clif_signature_params(func: Function) -> Seq<Seq<char>>;

/// The types of the returns of the signature of `func`, in their `Debug` form.
pub uninterp spec fn clif_signature_returns(func: Function) -> Seq<Seq<char>>;

/// The number of values created in `func`.
pub uninterp spec fn clif_num_values(func: Function) -> nat;

/// The values of `func` that `DataFlowGraph::values` lists: all but the placeholders that
/// stand for unused value numbers.
pub uninterp spec fn clif_values(func: Function) -> Seq<u32>;

/// The value that value `v` of `func` is an alias of, if it is an alias.
pub uninterp spec fn clif_alias_dest(func: Function, v: u32) -> Option<u32>;

/// The definition of value `v` of `func`, which is not an alias.
pub uninterp spec fn clif_value_def(func: Function, v: u32) -> ValueDef;

/// The type of value `v` of `func`, in its `Debug` form (`types::I32`).
pub uninterp spec fn clif_value_type(func: Function, v: u32) -> Seq<char>;

/// The number of instructions created in `func`.
pub uninterp spec fn clif_num_insts(func: Function) -> nat;

/// The opcode of instruction `i` of `func`, among those the conversion distinguishes.
pub uninterp spec fn clif_opcode(func: Function, i: u32) -> Opcode;

/// The value arguments of instruction `i` of `func`.
pub uninterp spec fn clif_inst_args(func: Function, i: u32) -> Seq<u32>;

/// The number of blocks created in `func`.
pub uninterp spec fn clif_num_blocks(func: Function) -> nat;

/// The parameters of block `b` of `func`.
pub uninterp spec fn clif_block_params(func: Function, b: u32) -> Seq<u32>;

/// The blocks of the layout of `func`, in layout order.
pub uninterp spec fn clif_layout(func: Function) -> Seq<u32>;

/// The instructions of block `b` in the layout of `func`, in layout order.
pub uninterp spec fn clif_block_insts(func: Function, b: u32) -> Seq<u32>;

/// The entry block of the layout of `func`.
pub uninterp spec fn clif_entry_block(func: Function) -> Option<u32>;

/// The reverse post-order of the control-flow graph of `func`.
pub uninterp spec fn clif_rpo(func: Function) -> Seq<u32>;

/// The jump table of instruction `i` of `func`, if it is a `br_table`.
pub uninterp spec fn clif_inst_jump_table(func: Function, i: u32) -> Option<u32>;

/// The exception table of instruction `i` of `func`, if it is a `try_call` or a
/// `try_call_indirect`.
pub uninterp spec fn clif_inst_exception_table(func: Function, i: u32) -> Option<u32>;

/// The number of jump tables of `func`.
pub uninterp spec fn clif_num_jump_tables(func: Function) -> nat;

/// The number of exception tables of `func`.
pub uninterp spec fn clif_num_exception_tables(func: Function) -> nat;

/// The value that value `v` of `func` resolves to by following at most `fuel` aliases,
/// if it does without leaving the values of `func`.  With `fuel` the number of values,
/// this is what `DataFlowGraph::resolve_aliases` finds instead of panicking.
pub open spec fn alias_root(func: Function, v: u32, fuel: nat) -> Option<u32>
    decreases fuel,
{
    if v >= clif_num_values(func) {
        None
    } else {
        match clif_alias_dest(func, v) {
            None => Some(v),
            Some(d) => if fuel == 0 {
                None
            } else {
                alias_root(func, d, (fuel - 1) as nat)
            },
        }
    }
}

/// Every listed value of `func` resolves to a value that is not an alias.
pub open spec fn aliases_resolve(func: Function) -> bool {
    forall|v: u32|
        v < clif_num_values(func) && #[trigger] clif_values(func).contains(v) ==> alias_root(
            func,
            v,
            clif_num_values(func),
        ) is Some
}

/// Every block of the layout of `func` has a number below `u32::MAX`, and the last
/// instruction of each is an instruction of `func` whose jump or exception table, if it
/// names one, exists, so that the control-flow graph can be built.
pub open spec fn layout_readable(func: Function) -> bool {
    forall|k: int|
        0 <= k < clif_layout(func).len() ==> {
            let b = #[trigger] clif_layout(func)[k];
            let insts = clif_block_insts(func, b);
            &&& b < u32::MAX
            &&& insts.len() > 0 ==> {
                let i = insts[insts.len() - 1];
                &&& i < clif_num_insts(func)
                &&& clif_inst_jump_table(func, i) matches Some(t) ==> t < clif_num_jump_tables(func)
                &&& clif_inst_exception_table(func, i) matches Some(t) ==> t < clif_num_exception_tables(func)
            }
        }
}

/// `UserFuncName`'s `Display` on `func.name`: the name as Cranelift displays it.  That
/// `Display` panics on a test-case name whose bytes are not UTF-8, so such a name gives
/// no result; `core::str::from_utf8` on the raw bytes tells it apart.
#[verifier::external_body]
fn function_name(func: &Function) -> (s: Option<String>)
    ensures
        s is Some <==> clif_name_is_text(*func),
        s matches Some(t) ==> t@ == clif_name(*func),
{
    match &func.name {
        UserFuncName::Testcase(t) => match core::str::from_utf8(t.raw()) {
            Ok(_) => Some(func.name.to_string()),
            Err(_) => None,
        },
        UserFuncName::User(_) => Some(func.name.to_string()),
    }
}

/// `Type`'s `Debug` on each parameter type of `func.signature`; unlike its `Display`, it
/// never panics.
#[verifier::external_body]
fn signature_params(func: &Function) -> (r: Vec<String>)
    ensures
        r@.len() == clif_signature_params(*func).len(),
        forall|j: int| 0 <= j < r@.len() ==> (#[trigger] r@[j])@ == clif_signature_params(*func)[j],
{
    func.signature.params.iter().map(|p| format!("{:?}", p.value_type)).collect()
}

/// `Type`'s `Debug` on each return type of `func.signature`; unlike its `Display`, it
/// never panics.
#[verifier::external_body]
fn signature_returns(func: &Function) -> (r: Vec<String>)
    ensures
        r@.len() == clif_signature_returns(*func).len(),
        forall|j: int| 0 <= j < r@.len() ==> (#[trigger] r@[j])@ == clif_signature_returns(*func)[j],
{
    func.signature.returns.iter().map(|p| format!("{:?}", p.value_type)).collect()
}

/// `DataFlowGraph::num_values`.
#[verifier::external_body]
fn num_values(func: &Function) -> (n: usize)
    ensures
        n == clif_num_values(*func),
{
    func.dfg.num_values()
}

/// `DataFlowGraph::values`, as value numbers.
#[verifier::external_body]
fn listed_values(func: &Function) -> (vs: Vec<u32>)
    ensures
        vs@ == clif_values(*func),
{
    func.dfg.values().map(|v| v.as_u32()).collect()
}

/// `DataFlowGraph::value_alias_dest_for_serialization` on value number `v`: the value it
/// is an alias of, if it is one.
#[verifier::external_body]
fn alias_dest(func: &Function, v: u32) -> (d: Option<u32>)
    requires
        v < clif_num_values(*func),
    ensures
        d == clif_alias_dest(*func, v),
{
    func.dfg.value_alias_dest_for_serialization(ClifValue::from_u32(v)).map(|d| d.as_u32())
}

/// `DataFlowGraph::value_def` on value number `v`, which is not an alias, so that no
/// alias is resolved; its variants are carried over field by field.
#[verifier::external_body]
fn value_def(func: &Function, v: u32) -> (d: ValueDef)
    requires
        v < clif_num_values(*func),
        clif_alias_dest(*func, v) is None,
    ensures
        d == clif_value_def(*func, v),
{
    match func.dfg.value_def(ClifValue::from_u32(v)) {
        ClifValueDef::Result(i, n) => ValueDef::Result(i.as_u32(), n),
        ClifValueDef::Param(b, n) => ValueDef::Param(b.as_u32(), n),
        ClifValueDef::Union(x, y) => ValueDef::Union(x.as_u32(), y.as_u32()),
    }
}

/// `DataFlowGraph::value_type` on value number `v`, in its `Debug` form, which unlike its
/// `Display` never panics.
#[verifier::external_body]
fn value_type(func: &Function, v: u32) -> (t: String)
    requires
        v < clif_num_values(*func),
    ensures
        t@ == clif_value_type(*func, v),
{
    format!("{:?}", func.dfg.value_type(ClifValue::from_u32(v)))
}

/// `DataFlowGraph::num_insts`.
#[verifier::external_body]
fn num_insts(func: &Function) -> (n: usize)
    ensures
        n == clif_num_insts(*func),
{
    func.dfg.num_insts()
}

/// `InstructionData::opcode` of instruction number `i`; the opcodes other than `iadd`,
/// `imul` and `return` all become `Other`.
#[verifier::external_body]
fn inst_opcode(func: &Function, i: u32) -> (op: Opcode)
    requires
        i < clif_num_insts(*func),
    ensures
        op == clif_opcode(*func, i),
{
    match func.dfg.insts[Inst::from_u32(i)].opcode() {
        ClifOpcode::Iadd => Opcode::Iadd,
        ClifOpcode::Imul => Opcode::Imul,
        ClifOpcode::Return => Opcode::Return,
        _ => Opcode::Other,
    }
}

/// `DataFlowGraph::inst_args` of instruction number `i`, as value numbers.
#[verifier::external_body]
fn inst_args(func: &Function, i: u32) -> (args: Vec<u32>)
    requires
        i < clif_num_insts(*func),
    ensures
        args@ == clif_inst_args(*func, i),
{
    func.dfg.inst_args(Inst::from_u32(i)).iter().map(|v| v.as_u32()).collect()
}

/// The jump table of the `br_table` instruction number `i`, from `func.dfg.insts`.
#[verifier::external_body]
fn inst_jump_table(func: &Function, i: u32) -> (t: Option<u32>)
    requires
        i < clif_num_insts(*func),
    ensures
        t == clif_inst_jump_table(*func, i),
{
    match &func.dfg.insts[Inst::from_u32(i)] {
        InstructionData::BranchTable { table, .. } => Some(table.as_u32()),
        _ => None,
    }
}

/// The exception table of the `try_call` or `try_call_indirect` instruction number `i`,
/// from `func.dfg.insts`.
#[verifier::external_body]
fn inst_exception_table(func: &Function, i: u32) -> (t: Option<u32>)
    requires
        i < clif_num_insts(*func),
    ensures
        t == clif_inst_exception_table(*func, i),
{
    match &func.dfg.insts[Inst::from_u32(i)] {
        InstructionData::TryCall { exception, .. } => Some(exception.as_u32()),
        InstructionData::TryCallIndirect { exception, .. } => Some(exception.as_u32()),
        _ => None,
    }
}

/// `PrimaryMap::len` of `func.dfg.jump_tables`; `get` finds exactly the tables below it.
#[verifier::external_body]
fn num_jump_tables(func: &Function) -> (n: usize)
    ensures
        n == clif_num_jump_tables(*func),
{
    func.dfg.jump_tables.len()
}

/// `PrimaryMap::len` of `func.dfg.exception_tables`; `get` finds exactly the tables below
/// it.
#[verifier::external_body]
fn num_exception_tables(func: &Function) -> (n: usize)
    ensures
        n == clif_num_exception_tables(*func),
{
    func.dfg.exception_tables.len()
}

/// `DataFlowGraph::num_blocks`.
#[verifier::external_body]
fn num_blocks(func: &Function) -> (n: usize)
    ensures
        n == clif_num_blocks(*func),
{
    func.dfg.num_blocks()
}

/// `DataFlowGraph::block_params` of block number `b`, as value numbers.
#[verifier::external_body]
fn block_params(func: &Function, b: u32) -> (params: Vec<u32>)
    requires
        b < clif_num_blocks(*func),
    ensures
        params@ == clif_block_params(*func, b),
{
    func.dfg.block_params(Block::from_u32(b)).iter().map(|v| v.as_u32()).collect()
}

/// `Layout::blocks`, as block numbers.
#[verifier::external_body]
fn layout_blocks(func: &Function) -> (blocks: Vec<u32>)
    ensures
        blocks@ == clif_layout(*func),
{
    func.layout.blocks().map(|b| b.as_u32()).collect()
}

/// `Layout::block_insts` of block number `b`, as instruction numbers; a block that is not
/// in the layout has none.
#[verifier::external_body]
fn block_insts(func: &Function, b: u32) -> (insts: Vec<u32>)
    requires
        b < u32::MAX,
    ensures
        insts@ == clif_block_insts(*func, b),
{
    func.layout.block_insts(Block::from_u32(b)).map(|i| i.as_u32()).collect()
}

/// `Layout::entry_block`, as a block number.
#[verifier::external_body]
fn entry_block(func: &Function) -> (b: Option<u32>)
    ensures
        b == clif_entry_block(*func),
{
    func.layout.entry_block().map(|b| b.as_u32())
}

/// `DominatorTree::cfg_rpo` of the dominator tree that `DominatorTree::with_function`
/// computes over `ControlFlowGraph::with_function(func)`, as block numbers.  Building the
/// graph looks up the table of each `br_table`, `try_call` and `try_call_indirect` that
/// ends a block of the layout, and panics on one that is missing, which the requirement
/// excludes.
#[verifier::external_body]
fn cfg_rpo(func: &Function) -> (rpo: Vec<u32>)
    requires
        layout_readable(*func),
    ensures
        rpo@ == clif_rpo(*func),
{
    let cfg = ControlFlowGraph::with_function(func);
    let domtree = DominatorTree::with_function(func, &cfg);
    domtree.cfg_rpo().map(|b| b.as_u32()).collect()
}

/// `f` holds what Cranelift gives for `func`: its name and signature types, the
/// definition and type of each value, the opcode and arguments of each instruction, the
/// parameters and layout instructions of each block, the layout, its entry block and the
/// reverse post-order.
pub open spec fn extracted(func: Function, f: ClifFunction) -> bool {
    &&& f.name@ == clif_name(func)
    &&& f.params@.len() == clif_signature_params(func).len()
    &&& forall|j: int| 0 <= j < f.params@.len() ==> (#[trigger] f.params@[j]).name@ == clif_signature_params(func)[j]
    &&& f.returns@.len() == clif_signature_returns(func).len()
    &&& forall|j: int| 0 <= j < f.returns@.len() ==> (#[trigger] f.returns@[j]).name@ == clif_signature_returns(func)[j]
    &&& f.values@.len() == clif_num_values(func)
    &&& forall|v: int| 0 <= v < f.values@.len() ==> #[trigger] value_extracted(func, v as u32, f.values@[v])
    &&& f.insts@.len() == clif_num_insts(func)
    &&& forall|i: int|
        0 <= i < f.insts@.len() ==> (#[trigger] f.insts@[i]).opcode == clif_opcode(func, i as u32)
            && f.insts@[i].args@ == clif_inst_args(func, i as u32)
    &&& f.blocks@.len() == clif_num_blocks(func)
    &&& forall|b: int|
        0 <= b < f.blocks@.len() ==> (#[trigger] f.blocks@[b]).params@ == clif_block_params(func, b as u32)
            && f.blocks@[b].insts@ == clif_block_insts(func, b as u32)
    &&& f.layout@ == clif_layout(func)
    &&& f.entry_block == clif_entry_block(func)
    &&& f.rpo@ == clif_rpo(func)
}

/// `d` holds what Cranelift gives for value `v` of `func`: the definition of the value it
/// resolves to and its type, or,
/// for a placeholder, a union of `v` with itself, which the conversion never accepts.
pub open spec fn value_extracted(func: Function, v: u32, d: ValueData) -> bool {
    if clif_values(func).contains(v) {
        &&& alias_root(func, v, clif_num_values(func)) matches Some(r) && d.def == clif_value_def(func, r)
        &&& d.ty.name@ == clif_value_type(func, v)
    } else {
        d.def == ValueDef::Union(v, v) && d.ty.name@.len() == 0
    }
}

/// The numbers of values, instructions and blocks of `func` are below `u32::MAX`.
pub open spec fn counts_fit(func: Function) -> bool {
    &&& clif_num_values(func) < u32::MAX
    &&& clif_num_insts(func) < u32::MAX
    &&& clif_num_blocks(func) < u32::MAX
}

/// `func` can be read without a panic of Cranelift: its counts fit, its name can be
/// displayed, its aliases resolve, and its control-flow graph can be built.
pub open spec fn readable(func: Function) -> bool {
    &&& counts_fit(func)
    &&& clif_name_is_text(func)
    &&& aliases_resolve(func)
    &&& layout_readable(func)
}

/// The value that value `v` resolves to, as [`alias_root`] with the number of values.
fn resolve_alias(func: &Function, v: u32, n: usize) -> (r: Option<u32>)
    requires
        n == clif_num_values(*func),
        n < u32::MAX,
        v < n,
    ensures
        r == alias_root(*func, v, n as nat),
        r matches Some(x) ==> x < n && clif_alias_dest(*func, x) is None,
{
    let mut cur = v;
    let mut fuel: usize = n;
    loop
        invariant
            n == clif_num_values(*func),
            n < u32::MAX,
            cur < n,
            fuel <= n,
            alias_root(*func, v, n as nat) == alias_root(*func, cur, fuel as nat),
        decreases fuel,
    {
        match alias_dest(func, cur) {
            None => {
                return Some(cur);
            },
            Some(d) => {
                if fuel == 0 {
                    return None;
                }
                if d as usize >= n {
                    assert(alias_root(*func, d, (fuel - 1) as nat) is None);
                    return None;
                }
                cur = d;
                fuel = fuel - 1;
            },
        }
    }
}

/// Whether the layout of `func`, which is `layout`, is [`layout_readable`].
fn check_layout_readable(func: &Function, layout: &Vec<u32>, n_insts: usize) -> (b: bool)
    requires
        layout@ == clif_layout(*func),
        n_insts == clif_num_insts(*func),
    ensures
        b == layout_readable(*func),
{
    let n_jump = num_jump_tables(func);
    let n_exc = num_exception_tables(func);
    let mut k: usize = 0;
    while k < layout.len()
        invariant
            layout@ == clif_layout(*func),
            n_insts == clif_num_insts(*func),
            n_jump == clif_num_jump_tables(*func),
            n_exc == clif_num_exception_tables(*func),
            k <= layout@.len(),
            forall|kk: int|
                0 <= kk < k ==> {
                    let b = #[trigger] clif_layout(*func)[kk];
                    let insts = clif_block_insts(*func, b);
                    &&& b < u32::MAX
                    &&& insts.len() > 0 ==> {
                        let i = insts[insts.len() - 1];
                        &&& i < clif_num_insts(*func)
                        &&& clif_inst_jump_table(*func, i) matches Some(t) ==> t < clif_num_jump_tables(*func)
                        &&& clif_inst_exception_table(*func, i) matches Some(t) ==> t < clif_num_exception_tables(
                            *func,
                        )
                    }
                },
        decreases layout@.len() - k,
    {
        let b = layout[k];
        assert(clif_layout(*func)[k as int] == b);
        if b == 0xffff_ffff {
            return false;
        }
        let insts = block_insts(func, b);
        if insts.len() > 0 {
            let i = insts[insts.len() - 1];
            if i as usize >= n_insts {
                return false;
            }
            match inst_jump_table(func, i) {
                Some(t) => {
                    if t as usize >= n_jump {
                        return false;
                    }
                },
                None => {},
            }
            match inst_exception_table(func, i) {
                Some(t) => {
                    if t as usize >= n_exc {
                        return false;
                    }
                },
                None => {},
            }
        }
        k = k + 1;
    }
    true
}

/// The types `names` as Cranelift types.
fn to_types(names: Vec<String>) -> (tys: Vec<ClifType>)
    ensures
        tys@.len() == names@.len(),
        forall|j: int| 0 <= j < names@.len() ==> (#[trigger] tys@[j]).name@ == names@[j]@,
{
    let mut tys: Vec<ClifType> = Vec::new();
    let mut j: usize = 0;
    while j < names.len()
        invariant
            j <= names@.len(),
            tys@.len() == j,
            forall|jj: int| 0 <= jj < j ==> (#[trigger] tys@[jj]).name@ == names@[jj]@,
        decreases names@.len() - j,
    {
        tys.push(ClifType { name: names[j].clone() });
        j = j + 1;
    }
    tys
}

impl ClifFunction {
    /// Reads the Cranelift function `func`.  There is no result when Cranelift would panic
    /// on reading it, or when it has too many values, instructions or blocks for their
    /// numbers to stay below `u32::MAX` ([`readable`]).
    #[verifier::spinoff_prover]
    pub fn from_cranelift(func: &Function) -> (r: Option<ClifFunction>)
        ensures
            r is Some <==> readable(*func),
            r matches Some(f) ==> extracted(*func, f),
    {
        let n_values = num_values(func);
        let n_insts = num_insts(func);
        let n_blocks = num_blocks(func);
        if n_values >= 0xffff_ffff || n_insts >= 0xffff_ffff || n_blocks >= 0xffff_ffff {
            return None;
        }
        let name = match function_name(func) {
            Some(name) => name,
            None => {
                return None;
            },
        };
        let layout = layout_blocks(func);
        if !check_layout_readable(func, &layout, n_insts) {
            return None;
        }
        let listed = listed_values(func);
        let mut is_listed: Vec<bool> = Vec::new();
        let mut v: usize = 0;
        while v < n_values
            invariant
                name@ == clif_name(*func),
                clif_name_is_text(*func),
                layout@ == clif_layout(*func),
                layout_readable(*func),
                v <= n_values,
                is_listed@.len() == v,
                forall|vv: int| 0 <= vv < v ==> !#[trigger] is_listed@[vv],
            decreases n_values - v,
        {
            is_listed.push(false);
            v = v + 1;
        }
        let mut k: usize = 0;
        while k < listed.len()
            invariant
                name@ == clif_name(*func),
                clif_name_is_text(*func),
                layout@ == clif_layout(*func),
                layout_readable(*func),
                n_values < 0xffff_ffff,
                is_listed@.len() == n_values,
                k <= listed@.len(),
                forall|vv: int|
                    0 <= vv < n_values ==> (#[trigger] is_listed@[vv] <==> listed@.subrange(0, k as int).contains(
                        vv as u32,
                    )),
            decreases listed@.len() - k,
        {
            let u = listed[k];
            let ghost before = is_listed@;
            if (u as usize) < n_values {
                is_listed.set(u as usize, true);
            }
            proof {
                assert(listed@.subrange(0, k + 1) =~= listed@.subrange(0, k as int).push(u));
                assert forall|vv: int| 0 <= vv < n_values implies (#[trigger] is_listed@[vv] <==> listed@.subrange(
                    0,
                    k + 1,
                ).contains(vv as u32)) by {
                    if vv == u as int {
                        assert(listed@.subrange(0, k + 1)[k as int] == u);
                    } else {
                        assert(is_listed@[vv] == before[vv]);
                        assert((vv as u32) != u) by {
                            assert(0 <= vv < 0xffff_ffff);
                        }
                    }
                    if listed@.subrange(0, k as int).contains(vv as u32) {
                        let w = choose|w: int| 0 <= w < k && #[trigger] listed@.subrange(0, k as int)[w] == vv as u32;
                        assert(listed@.subrange(0, k + 1)[w] == vv as u32);
                    }
                    if listed@.subrange(0, k + 1).contains(vv as u32) {
                        let w = choose|w: int| 0 <= w < k + 1 && #[trigger] listed@.subrange(0, k + 1)[w] == vv as u32;
                        if w < k {
                            assert(listed@.subrange(0, k as int)[w] == vv as u32);
                        }
                    }
                }
            }
            k = k + 1;
        }
        proof {
            assert(listed@.subrange(0, k as int) =~= listed@);
        }
        let mut values: Vec<ValueData> = Vec::new();
        let mut v: usize = 0;
        while v < n_values
            invariant
                name@ == clif_name(*func),
                clif_name_is_text(*func),
                layout@ == clif_layout(*func),
                layout_readable(*func),
                n_values == clif_num_values(*func),
                n_values < 0xffff_ffff,
                is_listed@.len() == n_values,
                forall|vv: int| 0 <= vv < n_values ==> (#[trigger] is_listed@[vv] <==> clif_values(*func).contains(vv as u32)),
                v <= n_values,
                values@.len() == v,
                forall|vv: int| 0 <= vv < v ==> #[trigger] value_extracted(*func, vv as u32, values@[vv]),
            decreases n_values - v,
        {
            if is_listed[v] {
                let root = match resolve_alias(func, v as u32, n_values) {
                    Some(root) => root,
                    None => {
                        proof {
                            assert(clif_values(*func).contains(v as u32));
                        }
                        return None;
                    },
                };
                let def = value_def(func, root);
                let ty = value_type(func, v as u32);
                values.push(ValueData { def, ty: ClifType { name: ty } });
            } else {
                values.push(ValueData { def: ValueDef::Union(v as u32, v as u32), ty: ClifType { name: String::new() } });
            }
            proof {
                assert(value_extracted(*func, v as u32, values@[v as int]));
            }
            v = v + 1;
        }
        proof {
            assert forall|u: u32| u < clif_num_values(*func) && #[trigger] clif_values(*func).contains(u) implies alias_root(
                *func,
                u,
                clif_num_values(*func),
            ) is Some by {
                assert(value_extracted(*func, u as int as u32, values@[u as int]));
            }
        }
        let mut insts: Vec<InstData> = Vec::new();
        let mut i: usize = 0;
        while i < n_insts
            invariant
                name@ == clif_name(*func),
                clif_name_is_text(*func),
                layout@ == clif_layout(*func),
                layout_readable(*func),
                n_insts == clif_num_insts(*func),
                n_insts < 0xffff_ffff,
                i <= n_insts,
                insts@.len() == i,
                forall|ii: int|
                    0 <= ii < i ==> (#[trigger] insts@[ii]).opcode == clif_opcode(*func, ii as u32)
                        && insts@[ii].args@ == clif_inst_args(*func, ii as u32),
            decreases n_insts - i,
        {
            let opcode = inst_opcode(func, i as u32);
            let args = inst_args(func, i as u32);
            insts.push(InstData { opcode, args });
            i = i + 1;
        }
        let mut blocks: Vec<BlockData> = Vec::new();
        let mut b: usize = 0;
        while b < n_blocks
            invariant
                name@ == clif_name(*func),
                clif_name_is_text(*func),
                layout@ == clif_layout(*func),
                layout_readable(*func),
                n_blocks == clif_num_blocks(*func),
                n_blocks < 0xffff_ffff,
                b <= n_blocks,
                blocks@.len() == b,
                forall|bb: int|
                    0 <= bb < b ==> (#[trigger] blocks@[bb]).params@ == clif_block_params(*func, bb as u32)
                        && blocks@[bb].insts@ == clif_block_insts(*func, bb as u32),
            decreases n_blocks - b,
        {
            let params = block_params(func, b as u32);
            let block_insts = block_insts(func, b as u32);
            blocks.push(BlockData { params, insts: block_insts });
            b = b + 1;
        }
        Some(
            ClifFunction {
                name,
                params: to_types(signature_params(func)),
                returns: to_types(signature_returns(func)),
                values,
                insts,
                blocks,
                layout,
                entry_block: entry_block(func),
                rpo: cfg_rpo(func),
            },
        )
    }
}

} // verus!
