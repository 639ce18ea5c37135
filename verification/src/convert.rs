//! Conversion of the entities of a Cranelift function: types, blocks, values and
//! instructions.
//!
//! A [`ConversionCtx`] caches the converted instructions and blocks.  It also carries,
//! as ghost state, the Cranelift entity that every IR operation and block it created
//! stands for; its invariant says that each such operation is a faithful conversion
//! of its instruction.
use crate::clif::{ClifFunction, ClifType, Opcode, ValueDef};
use crate::fxmap::{fx_map_contents, fx_map_get, fx_map_insert, fx_map_new, FxCache};
use crate::ir::{Context, IntegerType, OpKind, Signedness, Value};
use crate::names::{
    block_label, block_label_spec, identifier_try_new, lemma_block_label_is_identifier,
};
use crate::ops::{op_created, IAddOp, IMulOp, ReturnOp};
use vstd::prelude::*;

verus! {

/// The IR type `i32` converts to: a signed 32-bit integer.
pub open spec fn si32() -> IntegerType {
    IntegerType { width: 32, signedness: Signedness::Signed }
}

/// `n` copies of [`si32`].
pub open spec fn si32s(n: nat) -> Seq<IntegerType> {
    Seq::new(n, |_i: int| si32())
}

/// The IR operation a Cranelift opcode converts to.
pub open spec fn kind_of(opcode: Opcode) -> OpKind {
    match opcode {
        Opcode::Iadd => OpKind::IAdd,
        Opcode::Imul => OpKind::IMul,
        _ => OpKind::Return,
    }
}

/// IR value `v` stands for Cranelift value `a`, given the Cranelift instruction
/// (`op_src`) and block (`block_src`) that IR operations and blocks stand for: a result
/// of an instruction is the same result of an operation standing for that instruction,
/// and a block parameter is the same argument of a block standing for that block.
pub open spec fn corresponds(
    f: &ClifFunction,
    op_src: Map<usize, u32>,
    block_src: Map<usize, u32>,
    v: Value,
    a: u32,
) -> bool {
    match f.def_of(a) {
        ValueDef::Result(i, n) => match v {
            Value::OpResult { op, res_idx } => res_idx == n && op_src.contains_key(op) && op_src[op]
                == i,
            _ => false,
        },
        ValueDef::Param(b, n) => match v {
            Value::BlockArgument { block, arg_idx } => arg_idx == n && block_src.contains_key(block)
                && block_src[block] == b,
            _ => false,
        },
        ValueDef::Union(..) => false,
    }
}

/// IR operation `o` is a faithful conversion of the instruction `op_src[o]`: it has the
/// matching kind, and its operands stand for the instruction's arguments.
pub open spec fn faithful_op(
    ctx: &Context,
    f: &ClifFunction,
    op_src: Map<usize, u32>,
    block_src: Map<usize, u32>,
    o: usize,
) -> bool {
    let i = op_src[o];
    let op = ctx.ops@[o as int];
    let args = f.args_of(i);
    &&& op.kind == kind_of(f.opcode_of(i))
    &&& op.regions@.len() == 0
    &&& op.attrs is None
    &&& match f.opcode_of(i) {
        Opcode::Iadd | Opcode::Imul => {
            &&& args.len() >= 2
            &&& op.operands@.len() == 2
            &&& op.result_types@ == seq![si32()]
            &&& corresponds(f, op_src, block_src, op.operands@[0], args[0])
            &&& corresponds(f, op_src, block_src, op.operands@[1], args[1])
        },
        Opcode::Return => {
            &&& op.operands@.len() == args.len()
            &&& op.result_types@.len() == 0
            &&& forall|j: int|
                0 <= j < args.len() ==> corresponds(
                    f,
                    op_src,
                    block_src,
                    #[trigger] op.operands@[j],
                    args[j],
                )
        },
        Opcode::Other => false,
    }
}

/// A block standing for Cranelift block `b` has `n` arguments: one per parameter of
/// `b`, or, for the entry block of the function, one per parameter of the signature.
pub open spec fn block_arity_ok(f: &ClifFunction, b: u32, n: nat) -> bool {
    n == f.params_of(b).len() || (f.entry_block == Some(b) && n == f.params@.len())
}

/// IR block `bb` stands for the Cranelift block `block_src[bb]`: its arguments are
/// signed 32-bit integers, as many as the Cranelift block has parameters; unless it
/// stands for the entry block, it is labelled as Cranelift displays its block.
pub open spec fn faithful_block(ctx: &Context, f: &ClifFunction, block_src: Map<usize, u32>, bb: usize) -> bool {
    let tys = ctx.blocks@[bb as int].arg_types@;
    &&& block_arity_ok(f, block_src[bb], tys.len())
    &&& tys == si32s(tys.len())
    &&& f.entry_block != Some(block_src[bb]) ==> block_created_in(*ctx, f, block_src[bb], bb)
}

/// Every operation recorded in `c` but not in `base` has as operands the cached values of
/// the arguments of its instruction, whose definitions are all cached.
pub open spec fn operands_cached(ctx: &Context, f: &ClifFunction, base: &ConversionCtx, c: &ConversionCtx) -> bool {
    forall|o: usize|
        #[trigger] c.op_src().contains_key(o) && !base.op_src().contains_key(o) ==> {
            &&& ctx.ops@[o as int].operands@ == cached_operands(f, c.ops_map(), c.bbs_map(), c.op_src()[o])
            &&& forall|j: int|
                0 <= j < f.args_of(c.op_src()[o]).len() ==> arg_cached(
                    f,
                    c.cached_insts(),
                    c.cached_blocks(),
                    #[trigger] f.args_of(c.op_src()[o])[j],
                )
        }
}

/// Recording a new operation `o` for `inst`, whose operands are the cached values of the
/// arguments of `inst`, keeps [`operands_cached`].
pub(crate) proof fn lemma_operands_cached_new_op(
    mid_ctx: &Context,
    ctx: &Context,
    f: &ClifFunction,
    base: &ConversionCtx,
    mid: &ConversionCtx,
    c: &ConversionCtx,
    o: usize,
    inst: u32,
)
    requires
        operands_cached(mid_ctx, f, base, mid),
        src_faithful(mid_ctx, f, mid.op_src(), mid.block_src()),
        ctx.extends(mid_ctx),
        c.ops_map() == mid.ops_map(),
        c.bbs_map() == mid.bbs_map(),
        c.op_src() == mid.op_src().insert(o, inst),
        !mid.op_src().contains_key(o),
        ctx.ops@[o as int].operands@ == cached_operands(f, c.ops_map(), c.bbs_map(), inst),
        forall|j: int|
            0 <= j < f.args_of(inst).len() ==> arg_cached(
                f,
                c.cached_insts(),
                c.cached_blocks(),
                #[trigger] f.args_of(inst)[j],
            ),
    ensures
        operands_cached(ctx, f, base, c),
{
    assert(mid.op_src().submap_of(c.op_src()));
    lemma_operands_cached_grow(mid_ctx, ctx, f, base, mid, c);
    assert forall|o2: usize| #[trigger] c.op_src().contains_key(o2) && !base.op_src().contains_key(o2) implies {
        &&& ctx.ops@[o2 as int].operands@ == cached_operands(f, c.ops_map(), c.bbs_map(), c.op_src()[o2])
        &&& forall|j: int|
            0 <= j < f.args_of(c.op_src()[o2]).len() ==> arg_cached(
                f,
                c.cached_insts(),
                c.cached_blocks(),
                #[trigger] f.args_of(c.op_src()[o2])[j],
            )
    } by {
        if o2 != o {
            assert(mid.op_src().contains_key(o2));
        }
    }
}

/// Every operation and block created from `old_ctx` to `ctx` is recorded in `c`.
pub open spec fn all_recorded(old_ctx: &Context, ctx: &Context, c: &ConversionCtx) -> bool {
    &&& forall|o: usize| old_ctx.ops@.len() <= o < ctx.ops@.len() ==> #[trigger] c.op_src().contains_key(o)
    &&& forall|b: usize| old_ctx.blocks@.len() <= b < ctx.blocks@.len() ==> #[trigger] c.block_src().contains_key(b)
}

/// Block `b` has a parameter that is an argument of an instruction of `s`.
pub open spec fn arg_block_of(f: &ClifFunction, s: Set<u32>, b: u32) -> bool {
    exists|i: u32, m: int|
        s.contains(i) && 0 <= m < f.args_of(i).len() && (f.def_of(#[trigger] f.args_of(i)[m]) matches ValueDef::Param(
            b2,
            _,
        ) && b2 == b)
}

/// Block `b` has a parameter among the values `operands`.
pub open spec fn operand_block_of(f: &ClifFunction, operands: Seq<u32>, b: u32) -> bool {
    exists|j: int| 0 <= j < operands.len() && (f.def_of(#[trigger] operands[j]) matches ValueDef::Param(b2, _) && b2 == b)
}

/// Recording holds over two steps.
pub(crate) proof fn lemma_all_recorded_trans(
    a: &Context,
    b: &Context,
    c: &Context,
    c1: &ConversionCtx,
    c2: &ConversionCtx,
)
    requires
        all_recorded(a, b, c1),
        all_recorded(b, c, c2),
        c1.op_src().submap_of(c2.op_src()),
        c1.block_src().submap_of(c2.block_src()),
        a.ops@.len() <= b.ops@.len(),
        a.blocks@.len() <= b.blocks@.len(),
    ensures
        all_recorded(a, c, c2),
{
    assert forall|o: usize| a.ops@.len() <= o < c.ops@.len() implies #[trigger] c2.op_src().contains_key(o) by {
        if o < b.ops@.len() {
            assert(c1.op_src().dom().contains(o));
            assert(c2.op_src().dom().contains(o));
        }
    }
    assert forall|x: usize| a.blocks@.len() <= x < c.blocks@.len() implies #[trigger] c2.block_src().contains_key(x) by {
        if x < b.blocks@.len() {
            assert(c1.block_src().dom().contains(x));
            assert(c2.block_src().dom().contains(x));
        }
    }
}

/// Caching more keeps the operands of recorded operations the cached values.
pub(crate) proof fn lemma_operands_cached_grow(
    ctx1: &Context,
    ctx2: &Context,
    f: &ClifFunction,
    base: &ConversionCtx,
    c1: &ConversionCtx,
    c2: &ConversionCtx,
)
    requires
        operands_cached(ctx1, f, base, c1),
        src_faithful(ctx1, f, c1.op_src(), c1.block_src()),
        ctx2.extends(ctx1),
        c1.ops_map().submap_of(c2.ops_map()),
        c1.bbs_map().submap_of(c2.bbs_map()),
        c1.op_src().submap_of(c2.op_src()),
    ensures
        forall|o: usize|
            #[trigger] c1.op_src().contains_key(o) && !base.op_src().contains_key(o) ==> {
                &&& ctx2.ops@[o as int].operands@ == cached_operands(f, c2.ops_map(), c2.bbs_map(), c2.op_src()[o])
                &&& forall|j: int|
                    0 <= j < f.args_of(c2.op_src()[o]).len() ==> arg_cached(
                        f,
                        c2.cached_insts(),
                        c2.cached_blocks(),
                        #[trigger] f.args_of(c2.op_src()[o])[j],
                    )
            },
{
    assert forall|o: usize| #[trigger] c1.op_src().contains_key(o) && !base.op_src().contains_key(o) implies {
        &&& ctx2.ops@[o as int].operands@ == cached_operands(f, c2.ops_map(), c2.bbs_map(), c2.op_src()[o])
        &&& forall|j: int|
            0 <= j < f.args_of(c2.op_src()[o]).len() ==> arg_cached(
                f,
                c2.cached_insts(),
                c2.cached_blocks(),
                #[trigger] f.args_of(c2.op_src()[o])[j],
            )
    } by {
        let i = c1.op_src()[o];
        assert(c1.op_src().dom().contains(o));
        assert(c2.op_src().dom().contains(o));
        assert(c2.op_src()[o] == i);
        assert(o < ctx1.ops@.len());
        assert(ctx2.ops@[o as int] == ctx1.ops@[o as int]);
        let v1 = f.args_of(i).map_values(|a: u32| cached_value(f, c1.ops_map(), c1.bbs_map(), a));
        let v2 = f.args_of(i).map_values(|a: u32| cached_value(f, c2.ops_map(), c2.bbs_map(), a));
        assert forall|j: int| 0 <= j < f.args_of(i).len() implies arg_cached(
            f,
            c2.cached_insts(),
            c2.cached_blocks(),
            #[trigger] f.args_of(i)[j],
        ) && v1[j] == v2[j] by {
            assert(arg_cached(f, c1.cached_insts(), c1.cached_blocks(), f.args_of(i)[j]));
            match f.def_of(f.args_of(i)[j]) {
                ValueDef::Result(i2, _) => {
                    assert(c1.ops_map().dom().contains(i2));
                    assert(c2.ops_map().dom().contains(i2));
                },
                ValueDef::Param(b2, _) => {
                    assert(c1.bbs_map().dom().contains(b2));
                    assert(c2.bbs_map().dom().contains(b2));
                },
                ValueDef::Union(..) => {},
            }
        }
        assert(v1 =~= v2);
    }
}

/// Every operation and block recorded in `op_src` and `block_src` exists in `ctx`,
/// stands for an existing Cranelift entity, and is a faithful conversion of it.
pub open spec fn src_faithful(
    ctx: &Context,
    f: &ClifFunction,
    op_src: Map<usize, u32>,
    block_src: Map<usize, u32>,
) -> bool {
    &&& forall|o: usize|
        #[trigger] op_src.contains_key(o) ==> {
            &&& o < ctx.ops@.len()
            &&& op_src[o] < f.insts@.len()
            &&& faithful_op(ctx, f, op_src, block_src, o)
        }
    &&& forall|bb: usize|
        #[trigger] block_src.contains_key(bb) ==> {
            &&& bb < ctx.blocks@.len()
            &&& block_src[bb] < f.blocks@.len()
            &&& faithful_block(ctx, f, block_src, bb)
        }
}

/// `new` is `old` with some new operations and blocks, none of them placed; nothing of
/// `old` changed.
pub open spec fn grew_unplaced(old: Context, new: Context) -> bool {
    &&& new.wf()
    &&& new.extends(&old)
    &&& forall|o: int| 0 <= o < old.ops@.len() ==> #[trigger] new.op_parent@[o] == old.op_parent@[o]
    &&& forall|o: int| old.ops@.len() <= o < new.ops@.len() ==> (#[trigger] new.op_parent@[o]) is None
    &&& forall|b: int|
        0 <= b < old.blocks@.len() ==> #[trigger] new.block_ops@[b] == old.block_ops@[b]
            && new.block_parent@[b] == old.block_parent@[b]
    &&& forall|b: int|
        old.blocks@.len() <= b < new.blocks@.len() ==> (#[trigger] new.block_ops@[b])@.len() == 0
            && new.block_parent@[b] is None
    &&& new.regions@ == old.regions@
    &&& new.region_blocks@ == old.region_blocks@
}

/// The first argument of binary instruction `i` has a type once converted: it is the
/// result of an addition or multiplication, or an existing block parameter.
pub open spec fn lhs_ok(f: &ClifFunction, i: u32) -> bool {
    match f.def_of(f.args_of(i)[0]) {
        ValueDef::Result(i2, n) => n == 0 && (f.opcode_of(i2) == Opcode::Iadd || f.opcode_of(i2)
            == Opcode::Imul),
        ValueDef::Param(b, n) => n < f.params_of(b).len() && (f.entry_block == Some(b) ==> n
            < f.params@.len()),
        ValueDef::Union(..) => false,
    }
}

/// Instruction `i` can be converted on its own: an addition or a multiplication of at
/// least two arguments whose first has a type, or a return of at most one value.
pub open spec fn inst_ok(f: &ClifFunction, i: u32) -> bool {
    &&& i < f.insts@.len()
    &&& match f.opcode_of(i) {
        Opcode::Iadd | Opcode::Imul => f.args_of(i).len() >= 2 && lhs_ok(f, i),
        Opcode::Return => f.args_of(i).len() <= 1,
        Opcode::Other => false,
    }
}

/// Argument `a` can be converted: its defining instruction is cached, or it is in `s`
/// with a rank below `bound`; its defining block is cached or has only `i32`
/// parameters; it is not a union.
pub open spec fn arg_ok(
    f: &ClifFunction,
    s: Set<u32>,
    rank: Map<u32, nat>,
    ci: Set<u32>,
    cb: Set<u32>,
    bound: nat,
    a: u32,
) -> bool {
    &&& a < f.values@.len()
    &&& match f.def_of(a) {
        ValueDef::Result(i2, _) => ci.contains(i2) || (s.contains(i2) && rank[i2] < bound),
        ValueDef::Param(b, _) => cb.contains(b) || f.block_params_i32(b),
        ValueDef::Union(..) => false,
    }
}

/// `s` is a set of instructions, ranked by `rank`, that can all be converted when the
/// instructions in `ci` and the blocks in `cb` are cached: each can be converted on its
/// own, and the uncached definitions of its arguments are in `s` with a lower rank.
pub open spec fn closure_ok(
    f: &ClifFunction,
    s: Set<u32>,
    rank: Map<u32, nat>,
    ci: Set<u32>,
    cb: Set<u32>,
) -> bool {
    forall|i: u32|
        #[trigger] s.contains(i) ==> {
            &&& inst_ok(f, i)
            &&& rank.contains_key(i)
            &&& forall|j: int|
                0 <= j < f.args_of(i).len() ==> arg_ok(f, s, rank, ci, cb, rank[i], #[trigger] f.args_of(i)[j])
        }
}

/// Errors of the conversion.
#[derive(Debug)]
pub enum ConvertError {
    /// The name is not an identifier pliron accepts.
    InvalidIdentifier(String),
    /// The function uses a type, an opcode or a form of value that the conversion does
    /// not handle, or is not well formed.
    Unsupported,
}

/// Tracks the IR entities created by a conversion.
///
/// `ops` maps Cranelift instructions to the operations placed for them, `bbs` maps
/// Cranelift blocks to the IR blocks placed for them, `regs` lists the function bodies
/// created, `entry_block` and `func_op` record the last function created.
pub struct ConversionCtx {
    ops: FxCache,
    regs: Vec<usize>,
    bbs: FxCache,
    entry_block: Option<usize>,
    func_op: Option<usize>,
    op_src: Ghost<Map<usize, u32>>,
    block_src: Ghost<Map<usize, u32>>,
}

impl ConversionCtx {
    /// The cached operation of each converted instruction.
    pub closed spec fn ops_map(&self) -> Map<u32, usize> {
        fx_map_contents(self.ops)
    }

    /// The cached block of each converted block.
    pub closed spec fn bbs_map(&self) -> Map<u32, usize> {
        fx_map_contents(self.bbs)
    }

    /// The Cranelift instruction each operation created by the conversion stands for.
    pub closed spec fn op_src(&self) -> Map<usize, u32> {
        self.op_src@
    }

    /// The Cranelift block each IR block recorded by the conversion stands for.
    pub closed spec fn block_src(&self) -> Map<usize, u32> {
        self.block_src@
    }

    /// The entry block of the last function created.
    pub closed spec fn spec_entry_block(&self) -> Option<usize> {
        self.entry_block
    }

    /// The last function operation created.
    pub closed spec fn spec_func_op(&self) -> Option<usize> {
        self.func_op
    }

    /// The body regions of the functions created.
    pub closed spec fn spec_regs(&self) -> Seq<usize> {
        self.regs@
    }

    /// The instructions that are cached.
    pub open spec fn cached_insts(&self) -> Set<u32> {
        self.ops_map().dom()
    }

    /// The blocks that are cached.
    pub open spec fn cached_blocks(&self) -> Set<u32> {
        self.bbs_map().dom()
    }

    /// The invariant of a conversion context for function `f` in `ctx`: every cached
    /// operation or block stands for its key, every recorded operation and block is a
    /// faithful conversion, and every index is in range.
    pub open spec fn inv(&self, ctx: &Context, f: &ClifFunction) -> bool {
        &&& forall|i: u32|
            #[trigger] self.ops_map().contains_key(i) ==> {
                &&& self.op_src().contains_key(self.ops_map()[i])
                &&& self.op_src()[self.ops_map()[i]] == i
            }
        &&& forall|b: u32|
            #[trigger] self.bbs_map().contains_key(b) ==> {
                &&& self.block_src().contains_key(self.bbs_map()[b])
                &&& self.block_src()[self.bbs_map()[b]] == b
            }
        &&& src_faithful(ctx, f, self.op_src(), self.block_src())
        &&& self.spec_entry_block() matches Some(e) ==> e < ctx.blocks@.len()
        &&& self.spec_func_op() matches Some(fo) ==> fo < ctx.ops@.len()
        &&& forall|k: int| 0 <= k < self.spec_regs().len() ==> #[trigger] self.spec_regs()[k] < ctx.regions@.len()
    }

    /// Nothing is cached or recorded, and no function was created yet.
    pub open spec fn is_fresh(&self) -> bool {
        &&& self.ops_map().dom().is_empty()
        &&& self.bbs_map().dom().is_empty()
        &&& self.op_src().dom().is_empty()
        &&& self.block_src().dom().is_empty()
        &&& self.spec_entry_block() is None
        &&& self.spec_func_op() is None
        &&& self.spec_regs().len() == 0
    }

    /// A fresh conversion context suits every context and function.
    pub proof fn lemma_fresh_inv(&self, ctx: &Context, f: &ClifFunction)
        requires
            self.is_fresh(),
        ensures
            self.inv(ctx, f),
    {
        assert forall|i: u32| !(#[trigger] self.ops_map().contains_key(i)) by {
            assert(!self.ops_map().dom().contains(i));
        }
        assert forall|b: u32| !(#[trigger] self.bbs_map().contains_key(b)) by {
            assert(!self.bbs_map().dom().contains(b));
        }
        assert forall|o: usize| !(#[trigger] self.op_src().contains_key(o)) by {
            assert(!self.op_src().dom().contains(o));
        }
        assert forall|bb: usize| !(#[trigger] self.block_src().contains_key(bb)) by {
            assert(!self.block_src().dom().contains(bb));
        }
    }

    /// `self` is `old` with more operations and blocks recorded, and nothing else changed.
    pub open spec fn recorded_from(&self, old: &ConversionCtx) -> bool {
        &&& self.ops_map() == old.ops_map()
        &&& self.bbs_map() == old.bbs_map()
        &&& old.op_src().submap_of(self.op_src())
        &&& old.block_src().submap_of(self.block_src())
        &&& self.spec_entry_block() == old.spec_entry_block()
        &&& self.spec_func_op() == old.spec_func_op()
        &&& self.spec_regs() == old.spec_regs()
    }

    /// `self` is `old` with more entities cached and recorded, and nothing else changed;
    /// every operation and block recorded since `old`, but operation `skip`, is cached
    /// for the entity it stands for, and every entity cached since `old` is cached for an
    /// operation at index `n_ops` or above, or a block at index `n_blocks` or above.
    pub open spec fn cached_from_but(&self, old: &ConversionCtx, n_ops: nat, n_blocks: nat, skip: int) -> bool {
        &&& old.ops_map().submap_of(self.ops_map())
        &&& old.bbs_map().submap_of(self.bbs_map())
        &&& old.op_src().submap_of(self.op_src())
        &&& old.block_src().submap_of(self.block_src())
        &&& self.spec_entry_block() == old.spec_entry_block()
        &&& self.spec_func_op() == old.spec_func_op()
        &&& self.spec_regs() == old.spec_regs()
        &&& forall|o: usize|
            #[trigger] self.op_src().contains_key(o) && !old.op_src().contains_key(o) && o != skip
                ==> self.ops_map().contains_key(self.op_src()[o]) && self.ops_map()[self.op_src()[o]] == o
        &&& forall|bb: usize|
            #[trigger] self.block_src().contains_key(bb) && !old.block_src().contains_key(bb)
                ==> self.bbs_map().contains_key(self.block_src()[bb]) && self.bbs_map()[self.block_src()[bb]] == bb
        &&& forall|i: u32|
            #[trigger] self.ops_map().contains_key(i) && !old.ops_map().contains_key(i) ==> self.ops_map()[i] >= n_ops
        &&& forall|b: u32|
            #[trigger] self.bbs_map().contains_key(b) && !old.bbs_map().contains_key(b) ==> self.bbs_map()[b] >= n_blocks
    }

    /// `self` is `old` with more entities cached and recorded, each converted once: every
    /// operation and block recorded since `old` is the cached one of the entity it stands
    /// for ([`ConversionCtx::cached_from_but`] with no exception).
    pub open spec fn cached_from(&self, old: &ConversionCtx, n_ops: nat, n_blocks: nat) -> bool {
        self.cached_from_but(old, n_ops, n_blocks, -1)
    }

    /// An empty conversion context.
    pub fn new() -> (c: ConversionCtx)
        ensures
            c.is_fresh(),
            forall|ctx: &Context, f: &ClifFunction| #[trigger] c.inv(ctx, f),
    {
        let c = ConversionCtx {
            ops: fx_map_new(),
            regs: Vec::new(),
            bbs: fx_map_new(),
            entry_block: None,
            func_op: None,
            op_src: Ghost(Map::empty()),
            block_src: Ghost(Map::empty()),
        };
        proof {
            assert forall|ctx: &Context, f: &ClifFunction| #[trigger] c.inv(ctx, f) by {
                assert forall|i: u32| !(#[trigger] c.ops_map().contains_key(i)) by {
                    assert(!c.ops_map().dom().contains(i));
                }
                assert forall|b: u32| !(#[trigger] c.bbs_map().contains_key(b)) by {
                    assert(!c.bbs_map().dom().contains(b));
                }
            }
        }
        c
    }

    /// The operation cached for instruction `inst`, if any.
    pub fn cached_op(&self, inst: u32) -> (r: Option<usize>)
        ensures
            r == (if self.ops_map().contains_key(inst) {
                Some(self.ops_map()[inst])
            } else {
                None
            }),
    {
        fx_map_get(&self.ops, inst)
    }

    /// The IR block cached for block `block`, if any.
    pub fn cached_block(&self, block: u32) -> (r: Option<usize>)
        ensures
            r == (if self.bbs_map().contains_key(block) {
                Some(self.bbs_map()[block])
            } else {
                None
            }),
    {
        fx_map_get(&self.bbs, block)
    }

    /// Caches `op` as the operation of instruction `inst`.
    pub(crate) fn cache_op(&mut self, inst: u32, op: usize)
        ensures
            final(self).ops_map() == old(self).ops_map().insert(inst, op),
            final(self).bbs_map() == old(self).bbs_map(),
            final(self).op_src() == old(self).op_src(),
            final(self).block_src() == old(self).block_src(),
            final(self).spec_entry_block() == old(self).spec_entry_block(),
            final(self).spec_func_op() == old(self).spec_func_op(),
            final(self).spec_regs() == old(self).spec_regs(),
    {
        fx_map_insert(&mut self.ops, inst, op);
    }

    /// Caches `bb` as the IR block of block `block`.
    pub(crate) fn cache_block(&mut self, block: u32, bb: usize)
        ensures
            final(self).ops_map() == old(self).ops_map(),
            final(self).bbs_map() == old(self).bbs_map().insert(block, bb),
            final(self).op_src() == old(self).op_src(),
            final(self).block_src() == old(self).block_src(),
            final(self).spec_entry_block() == old(self).spec_entry_block(),
            final(self).spec_func_op() == old(self).spec_func_op(),
            final(self).spec_regs() == old(self).spec_regs(),
    {
        fx_map_insert(&mut self.bbs, block, bb);
    }

    /// Records that IR block `bb` stands for Cranelift block `block`.
    pub(crate) fn record_block(&mut self, Ghost(bb): Ghost<usize>, Ghost(block): Ghost<u32>)
        ensures
            final(self).ops_map() == old(self).ops_map(),
            final(self).bbs_map() == old(self).bbs_map(),
            final(self).op_src() == old(self).op_src(),
            final(self).block_src() == old(self).block_src().insert(bb, block),
            final(self).spec_entry_block() == old(self).spec_entry_block(),
            final(self).spec_func_op() == old(self).spec_func_op(),
            final(self).spec_regs() == old(self).spec_regs(),
    {
        self.block_src = Ghost(self.block_src@.insert(bb, block));
    }

    /// Records a new function: its operation `fo`, its body region `region` and its
    /// entry block `entry`.
    pub(crate) fn set_function(&mut self, fo: usize, region: usize, entry: usize)
        ensures
            final(self).ops_map() == old(self).ops_map(),
            final(self).bbs_map() == old(self).bbs_map(),
            final(self).op_src() == old(self).op_src(),
            final(self).block_src() == old(self).block_src(),
            final(self).spec_entry_block() == Some(entry),
            final(self).spec_func_op() == Some(fo),
            final(self).spec_regs() == old(self).spec_regs().push(region),
    {
        self.entry_block = Some(entry);
        self.regs.push(region);
        self.func_op = Some(fo);
    }

    /// The entry block of the last function created.
    pub fn entry_block(&self) -> (r: Option<usize>)
        ensures
            r == self.spec_entry_block(),
    {
        self.entry_block
    }

    /// The last function operation created.
    pub fn func_op(&self) -> (r: Option<usize>)
        ensures
            r == self.spec_func_op(),
    {
        self.func_op
    }

    /// The body regions of the functions created.
    pub fn regions(&self) -> (r: &Vec<usize>)
        ensures
            r@ == self.spec_regs(),
    {
        &self.regs
    }
}

impl Default for ConversionCtx {
    /// An empty conversion context.
    fn default() -> (c: ConversionCtx)
        ensures
            c.is_fresh(),
    {
        ConversionCtx::new()
    }
}

/// Extending the context and the recorded sources keeps a value's correspondence.
proof fn lemma_corresponds_grow(
    f: &ClifFunction,
    os1: Map<usize, u32>,
    bs1: Map<usize, u32>,
    os2: Map<usize, u32>,
    bs2: Map<usize, u32>,
    v: Value,
    a: u32,
)
    requires
        os1.submap_of(os2),
        bs1.submap_of(bs2),
        corresponds(f, os1, bs1, v, a),
    ensures
        corresponds(f, os2, bs2, v, a),
{
    match v {
        Value::OpResult { op, .. } => {
            if os1.dom().contains(op) {
                assert(os2.dom().contains(op));
            }
        },
        Value::BlockArgument { block, .. } => {
            if bs1.dom().contains(block) {
                assert(bs2.dom().contains(block));
            }
        },
    }
}

/// Extending the context and the recorded sources keeps the faithfulness of what was
/// recorded before.
pub(crate) proof fn lemma_src_faithful_grow(
    ctx1: &Context,
    ctx2: &Context,
    f: &ClifFunction,
    os1: Map<usize, u32>,
    bs1: Map<usize, u32>,
    os2: Map<usize, u32>,
    bs2: Map<usize, u32>,
)
    requires
        src_faithful(ctx1, f, os1, bs1),
        ctx2.extends(ctx1),
        os1.submap_of(os2),
        bs1.submap_of(bs2),
    ensures
        forall|o: usize|
            #[trigger] os1.contains_key(o) ==> o < ctx2.ops@.len() && faithful_op(ctx2, f, os2, bs2, o),
        forall|bb: usize|
            #[trigger] bs1.contains_key(bb) ==> bb < ctx2.blocks@.len() && faithful_block(ctx2, f, bs2, bb),
{
    assert forall|o: usize| #[trigger] os1.contains_key(o) implies o < ctx2.ops@.len() && faithful_op(
        ctx2,
        f,
        os2,
        bs2,
        o,
    ) by {
        assert(faithful_op(ctx1, f, os1, bs1, o));
        assert(ctx2.ops@[o as int] == ctx1.ops@[o as int]);
        assert(os2.dom().contains(o));
        assert(os2[o] == os1[o]);
        let i = os1[o];
        let op = ctx1.ops@[o as int];
        let args = f.args_of(i);
        match f.opcode_of(i) {
            Opcode::Iadd | Opcode::Imul => {
                lemma_corresponds_grow(f, os1, bs1, os2, bs2, op.operands@[0], args[0]);
                lemma_corresponds_grow(f, os1, bs1, os2, bs2, op.operands@[1], args[1]);
            },
            Opcode::Return => {
                assert forall|j: int| 0 <= j < args.len() implies corresponds(
                    f,
                    os2,
                    bs2,
                    #[trigger] op.operands@[j],
                    args[j],
                ) by {
                    lemma_corresponds_grow(f, os1, bs1, os2, bs2, op.operands@[j], args[j]);
                }
            },
            Opcode::Other => {},
        }
    }
    assert forall|bb: usize| #[trigger] bs1.contains_key(bb) implies bb < ctx2.blocks@.len()
        && faithful_block(ctx2, f, bs2, bb) by {
        assert(faithful_block(ctx1, f, bs1, bb));
        assert(ctx2.blocks@[bb as int] == ctx1.blocks@[bb as int]);
        assert(bs2.dom().contains(bb));
        assert(bs2[bb] == bs1[bb]);
    }
}

/// Converts a Cranelift type to an IR type; `i32` (`types::I32`) becomes a signed 32-bit
/// integer.
pub fn convert_type(ty: &ClifType) -> (t: IntegerType)
    requires
        ty.name@ == "types::I32"@,
    ensures
        t == si32(),
{
    let i32_name = String::from_str("types::I32");
    if ty.name == i32_name {
        IntegerType { width: 32, signedness: Signedness::Signed }
    } else {
        proof {
            assert(false);
        }
        IntegerType { width: 32, signedness: Signedness::Signed }
    }
}

/// `new_ctx` is `old_ctx` with one more, unplaced block `bb` standing for Cranelift block
/// `block`: labelled as Cranelift displays `block`, with one signed 32-bit argument per
/// parameter of `block`.
pub open spec fn block_created(
    old_ctx: Context,
    new_ctx: Context,
    f: &ClifFunction,
    block: u32,
    bb: usize,
) -> bool {
    &&& grew_unplaced(old_ctx, new_ctx)
    &&& bb == old_ctx.blocks@.len()
    &&& new_ctx.blocks@.len() == old_ctx.blocks@.len() + 1
    &&& new_ctx.ops@.len() == old_ctx.ops@.len()
    &&& new_ctx.blocks@[bb as int].label matches Some(l) && l@ == block_label_spec(block as nat)
    &&& new_ctx.blocks@[bb as int].arg_types@ == si32s(f.params_of(block).len())
}

/// In `ctx`, block `bb` stands for Cranelift block `block`: labelled as Cranelift
/// displays `block`, with one signed 32-bit argument per parameter of `block`.
pub open spec fn block_created_in(ctx: Context, f: &ClifFunction, block: u32, bb: usize) -> bool {
    &&& bb < ctx.blocks@.len()
    &&& ctx.blocks@[bb as int].label matches Some(l) && l@ == block_label_spec(block as nat)
    &&& ctx.blocks@[bb as int].arg_types@ == si32s(f.params_of(block).len())
}

/// The IR types of the parameters of block `block`, each an `i32`.
fn convert_block_params(f: &ClifFunction, block: u32) -> (tys: Vec<IntegerType>)
    requires
        f.wf(),
        block < f.blocks@.len(),
        f.block_params_i32(block),
    ensures
        tys@ == si32s(f.params_of(block).len()),
{
    let params = &f.blocks[block as usize].params;
    let mut arg_types: Vec<IntegerType> = Vec::new();
    let mut j: usize = 0;
    while j < params.len()
        invariant
            f.wf(),
            block < f.blocks@.len(),
            f.block_params_i32(block),
            params@ == f.params_of(block),
            j <= params@.len(),
            arg_types@ == si32s(j as nat),
        decreases params@.len() - j,
    {
        let v = params[j];
        assert(f.params_of(block)[j as int] == v);
        arg_types.push(convert_type(&f.values[v as usize].ty));
        j = j + 1;
        proof {
            assert(arg_types@ =~= si32s(j as nat));
        }
    }
    arg_types
}

/// Creates a new IR block for Cranelift block `block`: labelled as Cranelift displays the
/// block, with one signed 32-bit argument per block parameter.  The block is neither
/// placed nor cached.
pub fn convert_block_w_rpo(ctx: &mut Context, f: &ClifFunction, block: u32) -> (r: Result<
    usize,
    ConvertError,
>)
    requires
        old(ctx).wf(),
        f.wf(),
        block < f.blocks@.len(),
        f.block_params_i32(block),
    ensures
        r matches Ok(bb) && block_created(*old(ctx), *final(ctx), f, block, bb),
{
    let label = block_label(block);
    proof {
        lemma_block_label_is_identifier(block as nat);
    }
    match identifier_try_new(&label) {
        Ok(_) => {},
        Err(_) => {
            return Err(ConvertError::InvalidIdentifier(label));
        },
    }
    let arg_types = convert_block_params(f, block);
    let bb = ctx.create_block(Some(label), arg_types);
    proof {
        assert forall|b: int|
            old(ctx).blocks@.len() <= b < ctx.blocks@.len() implies (#[trigger] ctx.block_ops@[b])@.len()
            == 0 && ctx.block_parent@[b] is None by {}
    }
    Ok(bb)
}

/// Records that the new block `bb` stands for Cranelift block `block`, and re-establishes
/// the invariant.
pub(crate) proof fn lemma_record_block(
    old_ctx: &Context,
    ctx: &Context,
    f: &ClifFunction,
    old_cctx: &ConversionCtx,
    cctx: &ConversionCtx,
    bb: usize,
    block: u32,
)
    requires
        old_cctx.inv(old_ctx, f),
        block_created(*old_ctx, *ctx, f, block, bb),
        block < f.blocks@.len(),
        cctx.ops_map() == old_cctx.ops_map(),
        cctx.bbs_map() == old_cctx.bbs_map(),
        cctx.op_src() == old_cctx.op_src(),
        cctx.block_src() == old_cctx.block_src().insert(bb, block),
        cctx.spec_entry_block() == old_cctx.spec_entry_block(),
        cctx.spec_func_op() == old_cctx.spec_func_op(),
        cctx.spec_regs() == old_cctx.spec_regs(),
    ensures
        cctx.inv(ctx, f),
        cctx.recorded_from(old_cctx),
{
    let os = cctx.op_src();
    let bs = cctx.block_src();
    let old_bs = old_cctx.block_src();
    assert(!old_bs.contains_key(bb)) by {
        if old_bs.contains_key(bb) {
            assert(bb < old_ctx.blocks@.len());
        }
    }
    assert(old_bs.submap_of(bs));
    assert(os.submap_of(os));
    lemma_src_faithful_grow(old_ctx, ctx, f, os, old_bs, os, bs);
    assert forall|bb2: usize| #[trigger] bs.contains_key(bb2) implies {
        &&& bb2 < ctx.blocks@.len()
        &&& bs[bb2] < f.blocks@.len()
        &&& faithful_block(ctx, f, bs, bb2)
    } by {
        if bb2 != bb {
            assert(old_bs.contains_key(bb2));
        }
    }
    assert forall|o: usize| #[trigger] os.contains_key(o) implies {
        &&& o < ctx.ops@.len()
        &&& os[o] < f.insts@.len()
        &&& faithful_op(ctx, f, os, bs, o)
    } by {}
    assert forall|i: u32| #[trigger] cctx.ops_map().contains_key(i) implies {
        &&& cctx.op_src().contains_key(cctx.ops_map()[i])
        &&& cctx.op_src()[cctx.ops_map()[i]] == i
    } by {
        assert(old_cctx.ops_map().contains_key(i));
    }
    assert forall|b: u32| #[trigger] cctx.bbs_map().contains_key(b) implies {
        &&& cctx.block_src().contains_key(cctx.bbs_map()[b])
        &&& cctx.block_src()[cctx.bbs_map()[b]] == b
    } by {
        assert(old_cctx.bbs_map().contains_key(b));
        assert(old_bs.contains_key(cctx.bbs_map()[b]));
    }
    assert forall|k: int| 0 <= k < cctx.spec_regs().len() implies #[trigger] cctx.spec_regs()[k]
        < ctx.regions@.len() by {
        assert(old_cctx.spec_regs()[k] < old_ctx.regions@.len());
    }
}

/// Converts Cranelift block `block` to an IR block.  A cached block is returned as it
/// is; otherwise a new block is created as [`convert_block_w_rpo`] does, and cached, so
/// that the block is converted once.  The new block is not placed.
#[verifier::spinoff_prover]
pub fn convert_block(ctx: &mut Context, f: &ClifFunction, cctx: &mut ConversionCtx, block: u32) -> (r:
    Result<usize, ConvertError>)
    requires
        old(ctx).wf(),
        f.wf(),
        old(cctx).inv(old(ctx), f),
        block < f.blocks@.len(),
        old(cctx).cached_blocks().contains(block) || f.block_params_i32(block),
    ensures
        grew_unplaced(*old(ctx), *final(ctx)),
        final(cctx).cached_from(old(cctx), old(ctx).ops@.len() as nat, old(ctx).blocks@.len() as nat),
        final(cctx).inv(final(ctx), f),
        final(cctx).op_src() == old(cctx).op_src(),
        all_recorded(old(ctx), final(ctx), final(cctx)),
        r matches Ok(bb) && final(cctx).bbs_map().contains_key(block) && final(cctx).bbs_map()[block] == bb,
        old(cctx).cached_blocks().contains(block) ==> {
            &&& r matches Ok(bb) && bb == old(cctx).bbs_map()[block]
            &&& *final(ctx) == *old(ctx)
            &&& *final(cctx) == *old(cctx)
        },
        !old(cctx).cached_blocks().contains(block) ==> (r matches Ok(bb) && block_created(
            *old(ctx),
            *final(ctx),
            f,
            block,
            bb,
        ) && final(cctx).block_src() == old(cctx).block_src().insert(bb, block) && final(cctx).op_src() == old(cctx).op_src()
            && final(cctx).ops_map() == old(cctx).ops_map() && final(cctx).bbs_map() == old(cctx).bbs_map().insert(block, bb)),
{
    match fx_map_get(&cctx.bbs, block) {
        Some(bb) => {
            proof {
                lemma_cached_from_refl(cctx, old(ctx).ops@.len() as nat, old(ctx).blocks@.len() as nat);
            }
            return Ok(bb);
        },
        None => {},
    }
    let ghost old_ctx = *ctx;
    let bb = convert_block_w_rpo(ctx, f, block)?;
    cctx.block_src = Ghost(cctx.block_src@.insert(bb, block));
    let ghost mid = *cctx;
    proof {
        lemma_record_block(&old_ctx, ctx, f, old(cctx), cctx, bb, block);
    }
    cctx.cache_block(block, bb);
    proof {
        assert forall|b: u32| #[trigger] cctx.bbs_map().contains_key(b) implies {
            &&& cctx.block_src().contains_key(cctx.bbs_map()[b])
            &&& cctx.block_src()[cctx.bbs_map()[b]] == b
        } by {
            if b != block {
                assert(mid.bbs_map().contains_key(b));
            }
        }
        assert(old(cctx).bbs_map().submap_of(cctx.bbs_map()));
        assert forall|bb2: usize|
            #[trigger] cctx.block_src().contains_key(bb2) && !old(cctx).block_src().contains_key(bb2) implies cctx.bbs_map().contains_key(
            cctx.block_src()[bb2],
        ) && cctx.bbs_map()[cctx.block_src()[bb2]] == bb2 by {
            assert(bb2 == bb);
        }
        assert forall|b: u32| #[trigger] cctx.bbs_map().contains_key(b) && !old(cctx).bbs_map().contains_key(b) implies cctx.bbs_map()[b]
            >= old(ctx).blocks@.len() by {
            assert(b == block);
        }
        assert(old(cctx).ops_map().submap_of(cctx.ops_map()));
        assert(old(cctx).op_src().submap_of(cctx.op_src()));
    }
    Ok(bb)
}

/// Caching nothing more is caching more.
pub(crate) proof fn lemma_cached_from_refl(c: &ConversionCtx, n_ops: nat, n_blocks: nat)
    ensures
        c.cached_from(c, n_ops, n_blocks),
{
    assert(c.ops_map().submap_of(c.ops_map()));
    assert(c.bbs_map().submap_of(c.bbs_map()));
    assert(c.op_src().submap_of(c.op_src()));
    assert(c.block_src().submap_of(c.block_src()));
}

/// Growing without placing is transitive.
proof fn lemma_grew_unplaced_trans(a: Context, b: Context, c: Context)
    requires
        grew_unplaced(a, b),
        grew_unplaced(b, c),
    ensures
        grew_unplaced(a, c),
{
    assert forall|o: int| 0 <= o < a.ops@.len() implies #[trigger] c.ops@[o] == a.ops@[o] by {
        assert(c.ops@[o] == b.ops@[o]);
    }
    assert forall|bb: int| 0 <= bb < a.blocks@.len() implies #[trigger] c.blocks@[bb] == a.blocks@[bb] by {
        assert(c.blocks@[bb] == b.blocks@[bb]);
    }
    assert forall|o: int| 0 <= o < a.ops@.len() implies #[trigger] c.op_parent@[o] == a.op_parent@[o] by {
        assert(c.op_parent@[o] == b.op_parent@[o]);
    }
    assert forall|o: int| a.ops@.len() <= o < c.ops@.len() implies (#[trigger] c.op_parent@[o]) is None by {
        if o < b.ops@.len() {
            assert(b.op_parent@[o] is None);
        }
    }
    assert forall|bb: int|
        0 <= bb < a.blocks@.len() implies #[trigger] c.block_ops@[bb] == a.block_ops@[bb]
        && c.block_parent@[bb] == a.block_parent@[bb] by {
        assert(c.block_ops@[bb] == b.block_ops@[bb]);
    }
    assert forall|bb: int|
        a.blocks@.len() <= bb < c.blocks@.len() implies (#[trigger] c.block_ops@[bb])@.len() == 0
        && c.block_parent@[bb] is None by {
        if bb < b.blocks@.len() {
            assert(b.block_ops@[bb]@.len() == 0);
        }
    }
}

/// Creating an operation without regions grows the context without placing anything.
proof fn lemma_op_created_grew(
    old: Context,
    new: Context,
    op: usize,
    kind: OpKind,
    operands: Seq<Value>,
    results: Seq<IntegerType>,
)
    requires
        op_created(old, new, op, kind, operands, results),
    ensures
        grew_unplaced(old, new),
{
    assert forall|o: int| 0 <= o < old.ops@.len() implies #[trigger] new.op_parent@[o] == old.op_parent@[o] by {}
    assert forall|o: int| old.ops@.len() <= o < new.ops@.len() implies (#[trigger] new.op_parent@[o]) is None by {
        assert(o == old.ops@.len());
    }
    assert(new.regions@ =~= old.regions@);
}

/// Caching more is transitive.
pub(crate) proof fn lemma_cached_from_trans(
    a: &ConversionCtx,
    b: &ConversionCtx,
    c: &ConversionCtx,
    n1: nat,
    m1: nat,
    n2: nat,
    m2: nat,
)
    requires
        b.cached_from(a, n1, m1),
        c.cached_from(b, n2, m2),
        n1 <= n2,
        m1 <= m2,
    ensures
        c.cached_from(a, n1, m1),
{
    lemma_submap_trans(a.ops_map(), b.ops_map(), c.ops_map());
    lemma_submap_trans(a.bbs_map(), b.bbs_map(), c.bbs_map());
    lemma_submap_trans(a.op_src(), b.op_src(), c.op_src());
    lemma_submap_trans(a.block_src(), b.block_src(), c.block_src());
    assert forall|o: usize|
        #[trigger] c.op_src().contains_key(o) && !a.op_src().contains_key(o) && o != -1 implies c.ops_map().contains_key(
        c.op_src()[o],
    ) && c.ops_map()[c.op_src()[o]] == o by {
        if b.op_src().contains_key(o) {
            assert(b.ops_map().contains_key(b.op_src()[o]));
            assert(c.op_src()[o] == b.op_src()[o]);
        }
    }
    assert forall|bb: usize|
        #[trigger] c.block_src().contains_key(bb) && !a.block_src().contains_key(bb) implies c.bbs_map().contains_key(
        c.block_src()[bb],
    ) && c.bbs_map()[c.block_src()[bb]] == bb by {
        if b.block_src().contains_key(bb) {
            assert(b.bbs_map().contains_key(b.block_src()[bb]));
            assert(c.block_src()[bb] == b.block_src()[bb]);
        }
    }
    assert forall|i: u32| #[trigger] c.ops_map().contains_key(i) && !a.ops_map().contains_key(i) implies c.ops_map()[i]
        >= n1 by {
        if b.ops_map().contains_key(i) {
            assert(c.ops_map()[i] == b.ops_map()[i]);
        }
    }
    assert forall|x: u32| #[trigger] c.bbs_map().contains_key(x) && !a.bbs_map().contains_key(x) implies c.bbs_map()[x]
        >= m1 by {
        if b.bbs_map().contains_key(x) {
            assert(c.bbs_map()[x] == b.bbs_map()[x]);
        }
    }
}

/// A submap of a submap is a submap.
proof fn lemma_submap_trans<K, V>(a: Map<K, V>, b: Map<K, V>, c: Map<K, V>)
    requires
        a.submap_of(b),
        b.submap_of(c),
    ensures
        a.submap_of(c),
{
    assert forall|k: K| #[trigger] a.dom().contains(k) implies c.dom().contains(k) && a[k] == c[k] by {
        assert(b.dom().contains(k));
    }
}

/// Recording a new operation `o` for `inst` after caching more leaves every recorded
/// operation but `o` cached.
proof fn lemma_cached_then_recorded(
    a: &ConversionCtx,
    b: &ConversionCtx,
    c: &ConversionCtx,
    ctx_b: &Context,
    f: &ClifFunction,
    n: nat,
    m: nat,
    o: usize,
    inst: u32,
)
    requires
        b.cached_from(a, n, m),
        b.inv(ctx_b, f),
        o == ctx_b.ops@.len(),
        c.recorded_from(b),
        c.op_src() == b.op_src().insert(o, inst),
        c.block_src() == b.block_src(),
    ensures
        c.cached_from_but(a, n, m, o as int),
        !a.op_src().contains_key(o),
        !b.op_src().contains_key(o),
{
    assert(!b.op_src().contains_key(o)) by {
        if b.op_src().contains_key(o) {
            assert(o < ctx_b.ops@.len());
        }
    }
    assert(!a.op_src().contains_key(o)) by {
        if a.op_src().contains_key(o) {
            assert(b.op_src().dom().contains(o));
        }
    }
    lemma_submap_trans(a.op_src(), b.op_src(), c.op_src());
    lemma_submap_trans(a.block_src(), b.block_src(), c.block_src());
    assert forall|o2: usize|
        #[trigger] c.op_src().contains_key(o2) && !a.op_src().contains_key(o2) && o2 != o implies c.ops_map().contains_key(
        c.op_src()[o2],
    ) && c.ops_map()[c.op_src()[o2]] == o2 by {
        assert(b.op_src().contains_key(o2));
    }
    assert forall|bb: usize|
        #[trigger] c.block_src().contains_key(bb) && !a.block_src().contains_key(bb) implies c.bbs_map().contains_key(
        c.block_src()[bb],
    ) && c.bbs_map()[c.block_src()[bb]] == bb by {
        assert(b.block_src().contains_key(bb));
        assert(b.block_src()[bb] == c.block_src()[bb]);
    }
}

/// A value standing for the first argument of a binary instruction that satisfies
/// [`lhs_ok`] has a type, and the type is a signed 32-bit integer.
proof fn lemma_lhs_typed(
    ctx: &Context,
    f: &ClifFunction,
    os: Map<usize, u32>,
    bs: Map<usize, u32>,
    i: u32,
    v: Value,
)
    requires
        src_faithful(ctx, f, os, bs),
        f.args_of(i).len() >= 1,
        lhs_ok(f, i),
        corresponds(f, os, bs, v, f.args_of(i)[0]),
    ensures
        ctx.value_has_type(v),
        ctx.spec_value_type(v) == si32(),
{
    match v {
        Value::OpResult { op, res_idx } => {
            assert(os.contains_key(op));
            assert(faithful_op(ctx, f, os, bs, op));
        },
        Value::BlockArgument { block, arg_idx } => {
            assert(bs.contains_key(block));
            assert(faithful_block(ctx, f, bs, block));
        },
    }
}

/// Records that the new operation `o` stands for instruction `inst`, and re-establishes
/// the invariant.
proof fn lemma_record_op(
    old_ctx: &Context,
    ctx: &Context,
    f: &ClifFunction,
    old_cctx: &ConversionCtx,
    cctx: &ConversionCtx,
    o: usize,
    inst: u32,
)
    requires
        old_cctx.inv(old_ctx, f),
        ctx.extends(old_ctx),
        o == old_ctx.ops@.len(),
        o < ctx.ops@.len(),
        inst < f.insts@.len(),
        cctx.ops_map() == old_cctx.ops_map(),
        cctx.bbs_map() == old_cctx.bbs_map(),
        cctx.op_src() == old_cctx.op_src().insert(o, inst),
        cctx.block_src() == old_cctx.block_src(),
        cctx.spec_entry_block() == old_cctx.spec_entry_block(),
        cctx.spec_func_op() == old_cctx.spec_func_op(),
        cctx.spec_regs() == old_cctx.spec_regs(),
        faithful_op(ctx, f, cctx.op_src(), cctx.block_src(), o),
    ensures
        cctx.inv(ctx, f),
        cctx.recorded_from(old_cctx),
{
    let os = cctx.op_src();
    let bs = cctx.block_src();
    let oos = old_cctx.op_src();
    assert(!oos.contains_key(o)) by {
        if oos.contains_key(o) {
            assert(o < old_ctx.ops@.len());
        }
    }
    assert(oos.submap_of(os));
    assert(bs.submap_of(bs));
    lemma_src_faithful_grow(old_ctx, ctx, f, oos, bs, os, bs);
    assert forall|o2: usize| #[trigger] os.contains_key(o2) implies {
        &&& o2 < ctx.ops@.len()
        &&& os[o2] < f.insts@.len()
        &&& faithful_op(ctx, f, os, bs, o2)
    } by {
        if o2 != o {
            assert(oos.contains_key(o2));
        }
    }
    assert forall|bb: usize| #[trigger] bs.contains_key(bb) implies {
        &&& bb < ctx.blocks@.len()
        &&& bs[bb] < f.blocks@.len()
        &&& faithful_block(ctx, f, bs, bb)
    } by {}
    assert forall|i: u32| #[trigger] cctx.ops_map().contains_key(i) implies {
        &&& cctx.op_src().contains_key(cctx.ops_map()[i])
        &&& cctx.op_src()[cctx.ops_map()[i]] == i
    } by {
        assert(old_cctx.ops_map().contains_key(i));
        assert(oos.contains_key(cctx.ops_map()[i]));
    }
    assert forall|b: u32| #[trigger] cctx.bbs_map().contains_key(b) implies {
        &&& cctx.block_src().contains_key(cctx.bbs_map()[b])
        &&& cctx.block_src()[cctx.bbs_map()[b]] == b
    } by {
        assert(old_cctx.bbs_map().contains_key(b));
    }
    assert forall|k: int| 0 <= k < cctx.spec_regs().len() implies #[trigger] cctx.spec_regs()[k]
        < ctx.regions@.len() by {
        assert(old_cctx.spec_regs()[k] < old_ctx.regions@.len());
    }
}

/// `closure_ok` still holds when more instructions and blocks are cached.
pub(crate) proof fn lemma_closure_mono(
    f: &ClifFunction,
    s: Set<u32>,
    rank: Map<u32, nat>,
    ci1: Set<u32>,
    cb1: Set<u32>,
    ci2: Set<u32>,
    cb2: Set<u32>,
)
    requires
        closure_ok(f, s, rank, ci1, cb1),
        ci1.subset_of(ci2),
        cb1.subset_of(cb2),
    ensures
        closure_ok(f, s, rank, ci2, cb2),
{
    assert forall|i: u32| #[trigger] s.contains(i) implies {
        &&& inst_ok(f, i)
        &&& rank.contains_key(i)
        &&& forall|j: int|
            0 <= j < f.args_of(i).len() ==> arg_ok(f, s, rank, ci2, cb2, rank[i], #[trigger] f.args_of(i)[j])
    } by {
        assert forall|j: int| 0 <= j < f.args_of(i).len() implies arg_ok(
            f,
            s,
            rank,
            ci2,
            cb2,
            rank[i],
            #[trigger] f.args_of(i)[j],
        ) by {
            assert(arg_ok(f, s, rank, ci1, cb1, rank[i], f.args_of(i)[j]));
            match f.def_of(f.args_of(i)[j]) {
                ValueDef::Result(i2, _) => {
                    if ci1.contains(i2) {
                        assert(ci2.contains(i2));
                    }
                },
                ValueDef::Param(b, _) => {
                    if cb1.contains(b) {
                        assert(cb2.contains(b));
                    }
                },
                ValueDef::Union(..) => {},
            }
        }
    }
}

/// Converts the Cranelift values `operands`, converting and caching the definitions that
/// are not cached (instructions ranked below `bound` in `s`); each value is then the
/// cached operation or block of its definition.
#[verifier::spinoff_prover]
fn convert_operands_rec(
    ctx: &mut Context,
    f: &ClifFunction,
    cctx: &mut ConversionCtx,
    operands: &[u32],
    Ghost(s): Ghost<Set<u32>>,
    Ghost(rank): Ghost<Map<u32, nat>>,
    Ghost(bound): Ghost<nat>,
) -> (r: Result<Vec<Value>, ConvertError>)
    requires
        old(ctx).wf(),
        f.wf(),
        old(cctx).inv(old(ctx), f),
        closure_ok(f, s, rank, old(cctx).cached_insts(), old(cctx).cached_blocks()),
        forall|j: int|
            0 <= j < operands@.len() ==> arg_ok(
                f,
                s,
                rank,
                old(cctx).cached_insts(),
                old(cctx).cached_blocks(),
                bound,
                #[trigger] operands@[j],
            ),
    ensures
        grew_unplaced(*old(ctx), *final(ctx)),
        final(cctx).cached_from(old(cctx), old(ctx).ops@.len() as nat, old(ctx).blocks@.len() as nat),
        final(cctx).inv(final(ctx), f),
        operands_cached(final(ctx), f, old(cctx), final(cctx)),
        all_recorded(old(ctx), final(ctx), final(cctx)),
        forall|b: u32|
            #[trigger] final(cctx).bbs_map().contains_key(b) && !old(cctx).bbs_map().contains_key(b) ==> arg_block_of(f, s, b)
                || operand_block_of(f, operands@, b),
        forall|i: u32|
            #[trigger] final(cctx).ops_map().contains_key(i) && !old(cctx).ops_map().contains_key(i) ==> s.contains(i)
                && rank[i] < bound,
        r matches Ok(vs) && vs@.len() == operands@.len() && forall|j: int|
            0 <= j < operands@.len() ==> {
                &&& final(ctx).value_in_range(#[trigger] vs@[j])
                &&& corresponds(f, final(cctx).op_src(), final(cctx).block_src(), vs@[j], operands@[j])
                &&& arg_cached(f, final(cctx).cached_insts(), final(cctx).cached_blocks(), operands@[j])
                &&& vs@[j] == cached_value(f, final(cctx).ops_map(), final(cctx).bbs_map(), operands@[j])
            },
        (forall|j: int|
            0 <= j < operands@.len() ==> arg_cached(
                f,
                old(cctx).cached_insts(),
                old(cctx).cached_blocks(),
                #[trigger] operands@[j],
            )) ==> {
            &&& *final(ctx) == *old(ctx)
            &&& *final(cctx) == *old(cctx)
            &&& r matches Ok(vs) && vs@ == operands@.map_values(
                |a: u32| cached_value(f, old(cctx).ops_map(), old(cctx).bbs_map(), a),
            )
        },
    decreases bound, 0nat,
{
    let ghost all_cached = forall|jj: int|
        0 <= jj < operands@.len() ==> arg_cached(
            f,
            old(cctx).cached_insts(),
            old(cctx).cached_blocks(),
            #[trigger] operands@[jj],
        );
    let mut result: Vec<Value> = Vec::new();
    let mut j: usize = 0;
    proof {
        lemma_cached_from_refl(cctx, old(ctx).ops@.len() as nat, old(ctx).blocks@.len() as nat);
    }
    while j < operands.len()
        invariant
            f.wf(),
            old(ctx).wf(),
            old(cctx).inv(old(ctx), f),
            grew_unplaced(*old(ctx), *ctx),
            cctx.cached_from(old(cctx), old(ctx).ops@.len() as nat, old(ctx).blocks@.len() as nat),
            cctx.inv(ctx, f),
            operands_cached(ctx, f, old(cctx), cctx),
            all_recorded(old(ctx), ctx, cctx),
            forall|b: u32|
                #[trigger] cctx.bbs_map().contains_key(b) && !old(cctx).bbs_map().contains_key(b) ==> arg_block_of(f, s, b)
                    || operand_block_of(f, operands@, b),
            closure_ok(f, s, rank, old(cctx).cached_insts(), old(cctx).cached_blocks()),
            forall|i: u32|
                #[trigger] cctx.ops_map().contains_key(i) && !old(cctx).ops_map().contains_key(i) ==> s.contains(i)
                    && rank[i] < bound,
            forall|jj: int|
                0 <= jj < operands@.len() ==> arg_ok(
                    f,
                    s,
                    rank,
                    old(cctx).cached_insts(),
                    old(cctx).cached_blocks(),
                    bound,
                    #[trigger] operands@[jj],
                ),
            j <= operands@.len(),
            result@.len() == j,
            all_cached == forall|jj: int|
                0 <= jj < operands@.len() ==> arg_cached(
                    f,
                    old(cctx).cached_insts(),
                    old(cctx).cached_blocks(),
                    #[trigger] operands@[jj],
                ),
            all_cached ==> {
                &&& *ctx == *old(ctx)
                &&& *cctx == *old(cctx)
                &&& result@ == operands@.subrange(0, j as int).map_values(
                    |a: u32| cached_value(f, old(cctx).ops_map(), old(cctx).bbs_map(), a),
                )
            },
            forall|k: int|
                0 <= k < j ==> {
                    &&& ctx.value_in_range(#[trigger] result@[k])
                    &&& corresponds(f, cctx.op_src(), cctx.block_src(), result@[k], operands@[k])
                    &&& arg_cached(f, cctx.cached_insts(), cctx.cached_blocks(), operands@[k])
                    &&& result@[k] == cached_value(f, cctx.ops_map(), cctx.bbs_map(), operands@[k])
                },
        decreases operands@.len() - j,
    {
        let operand = operands[j];
        assert(arg_ok(f, s, rank, old(cctx).cached_insts(), old(cctx).cached_blocks(), bound, operands@[j as int]));
        let ghost prev_ctx = *ctx;
        let ghost prev_cctx = *cctx;
        proof {
            assert(old(cctx).cached_insts().subset_of(cctx.cached_insts())) by {
                assert forall|i: u32| old(cctx).cached_insts().contains(i) implies cctx.cached_insts().contains(i) by {
                    assert(old(cctx).ops_map().dom().contains(i));
                }
            }
            assert(old(cctx).cached_blocks().subset_of(cctx.cached_blocks())) by {
                assert forall|b: u32| old(cctx).cached_blocks().contains(b) implies cctx.cached_blocks().contains(b) by {
                    assert(old(cctx).bbs_map().dom().contains(b));
                }
            }
            lemma_closure_mono(
                f,
                s,
                rank,
                old(cctx).cached_insts(),
                old(cctx).cached_blocks(),
                cctx.cached_insts(),
                cctx.cached_blocks(),
            );
        }
        let v = match f.values[operand as usize].def {
            ValueDef::Result(inst, idx) => {
                let op = match fx_map_get(&cctx.ops, inst) {
                    Some(op) => {
                        proof {
                            lemma_cached_from_refl(cctx, prev_ctx.ops@.len() as nat, prev_ctx.blocks@.len() as nat);
                        }
                        op
                    },
                    None => {
                        proof {
                            if old(cctx).cached_insts().contains(inst) {
                                assert(old(cctx).ops_map().dom().contains(inst));
                                assert(cctx.ops_map().dom().contains(inst));
                            }
                        }
                        convert_instruction_rec(ctx, f, cctx, inst, Ghost(s), Ghost(rank))?
                    },
                };
                Value::OpResult { op, res_idx: idx }
            },
            ValueDef::Param(block, idx) => {
                proof {
                    if old(cctx).cached_blocks().contains(block) {
                        assert(old(cctx).bbs_map().dom().contains(block));
                        assert(cctx.bbs_map().dom().contains(block));
                    }
                }
                let bb = convert_block(ctx, f, cctx, block)?;
                Value::BlockArgument { block: bb, arg_idx: idx }
            },
            ValueDef::Union(_value, _value1) => {
                proof {
                    assert(false);
                }
                return Err(ConvertError::Unsupported);
            },
        };
        result.push(v);
        proof {
            if all_cached {
                assert(arg_cached(f, old(cctx).cached_insts(), old(cctx).cached_blocks(), operand));
                assert(result@ =~= operands@.subrange(0, j + 1).map_values(
                    |a: u32| cached_value(f, old(cctx).ops_map(), old(cctx).bbs_map(), a),
                ));
            }
            lemma_grew_unplaced_trans(*old(ctx), prev_ctx, *ctx);
            lemma_cached_from_trans(
                old(cctx),
                &prev_cctx,
                cctx,
                old(ctx).ops@.len() as nat,
                old(ctx).blocks@.len() as nat,
                prev_ctx.ops@.len() as nat,
                prev_ctx.blocks@.len() as nat,
            );
            let os = cctx.op_src();
            let bs = cctx.block_src();
            assert(prev_cctx.op_src().submap_of(os));
            assert(prev_cctx.block_src().submap_of(bs));
            lemma_operands_cached_grow(&prev_ctx, ctx, f, old(cctx), &prev_cctx, cctx);
            lemma_all_recorded_trans(old(ctx), &prev_ctx, ctx, &prev_cctx, cctx);
            assert forall|b: u32|
                #[trigger] cctx.bbs_map().contains_key(b) && !old(cctx).bbs_map().contains_key(b) implies arg_block_of(f, s, b)
                || operand_block_of(f, operands@, b) by {
                if !prev_cctx.bbs_map().contains_key(b) {
                    match f.def_of(operand) {
                        ValueDef::Result(inst, idx) => {},
                        ValueDef::Param(block, idx) => {
                            assert(b == block);
                            assert(operands@[j as int] == operand);
                        },
                        ValueDef::Union(..) => {},
                    }
                } else {
                    assert(prev_cctx.bbs_map().contains_key(b));
                }
            }
            assert forall|o: usize| #[trigger] cctx.op_src().contains_key(o) && !old(cctx).op_src().contains_key(o) implies {
                &&& ctx.ops@[o as int].operands@ == cached_operands(f, cctx.ops_map(), cctx.bbs_map(), cctx.op_src()[o])
                &&& forall|jj: int|
                    0 <= jj < f.args_of(cctx.op_src()[o]).len() ==> arg_cached(
                        f,
                        cctx.cached_insts(),
                        cctx.cached_blocks(),
                        #[trigger] f.args_of(cctx.op_src()[o])[jj],
                    )
            } by {
                if !prev_cctx.op_src().contains_key(o) {
                    match f.def_of(operand) {
                        ValueDef::Result(inst, idx) => {
                            if prev_cctx.ops_map().contains_key(inst) {
                                assert(cctx.op_src() == prev_cctx.op_src());
                            }
                        },
                        _ => {
                            assert(cctx.op_src() == prev_cctx.op_src());
                        },
                    }
                }
            }
            assert forall|i: u32|
                #[trigger] cctx.ops_map().contains_key(i) && !old(cctx).ops_map().contains_key(i) implies s.contains(i)
                && rank[i] < bound by {
                if !prev_cctx.ops_map().contains_key(i) {
                    match f.def_of(operand) {
                        ValueDef::Result(inst, idx) => {},
                        ValueDef::Param(block, idx) => {
                            assert(cctx.ops_map() == prev_cctx.ops_map());
                        },
                        ValueDef::Union(..) => {},
                    }
                }
            }
            assert forall|k: int| 0 <= k < j + 1 implies {
                &&& ctx.value_in_range(#[trigger] result@[k])
                &&& corresponds(f, os, bs, result@[k], operands@[k])
                &&& arg_cached(f, cctx.cached_insts(), cctx.cached_blocks(), operands@[k])
                &&& result@[k] == cached_value(f, cctx.ops_map(), cctx.bbs_map(), operands@[k])
            } by {
                if k < j {
                    lemma_corresponds_grow(
                        f,
                        prev_cctx.op_src(),
                        prev_cctx.block_src(),
                        os,
                        bs,
                        result@[k],
                        operands@[k],
                    );
                    match f.def_of(operands@[k]) {
                        ValueDef::Result(i2, _) => {
                            assert(prev_cctx.ops_map().dom().contains(i2));
                            assert(cctx.ops_map().dom().contains(i2));
                        },
                        ValueDef::Param(b2, _) => {
                            assert(prev_cctx.bbs_map().dom().contains(b2));
                            assert(cctx.bbs_map().dom().contains(b2));
                        },
                        ValueDef::Union(..) => {},
                    }
                } else {
                    match f.def_of(operand) {
                        ValueDef::Result(inst, idx) => {
                            assert(cctx.ops_map().contains_key(inst));
                            assert(cctx.op_src().contains_key(cctx.ops_map()[inst]));
                        },
                        ValueDef::Param(block, idx) => {
                            assert(cctx.bbs_map().contains_key(block));
                            assert(cctx.block_src().contains_key(cctx.bbs_map()[block]));
                        },
                        ValueDef::Union(..) => {},
                    }
                }
            }
        }
        j = j + 1;
    }
    proof {
        if all_cached {
            assert(operands@.subrange(0, j as int) =~= operands@);
        }
    }
    Ok(result)
}

/// Converts instruction `inst` unless it is cached, converting and caching first the
/// definitions of its arguments that are not cached, then caching the new operation, so
/// that every instruction is converted once.
#[verifier::spinoff_prover]
pub(crate) fn convert_instruction_rec(
    ctx: &mut Context,
    f: &ClifFunction,
    cctx: &mut ConversionCtx,
    inst: u32,
    Ghost(s): Ghost<Set<u32>>,
    Ghost(rank): Ghost<Map<u32, nat>>,
) -> (r: Result<usize, ConvertError>)
    requires
        old(ctx).wf(),
        f.wf(),
        old(cctx).inv(old(ctx), f),
        closure_ok(f, s, rank, old(cctx).cached_insts(), old(cctx).cached_blocks()),
        old(cctx).cached_insts().contains(inst) || s.contains(inst),
    ensures
        grew_unplaced(*old(ctx), *final(ctx)),
        final(cctx).cached_from(old(cctx), old(ctx).ops@.len() as nat, old(ctx).blocks@.len() as nat),
        final(cctx).inv(final(ctx), f),
        operands_cached(final(ctx), f, old(cctx), final(cctx)),
        all_recorded(old(ctx), final(ctx), final(cctx)),
        forall|b: u32|
            #[trigger] final(cctx).bbs_map().contains_key(b) && !old(cctx).bbs_map().contains_key(b) ==> arg_block_of(f, s, b),
        final(cctx).ops_map().contains_key(inst) && r == Ok::<usize, ConvertError>(final(cctx).ops_map()[inst]),
        forall|i: u32|
            #[trigger] final(cctx).ops_map().contains_key(i) && !old(cctx).ops_map().contains_key(i) ==> s.contains(i)
                && rank[i] <= rank[inst],
        old(cctx).cached_insts().contains(inst) ==> {
            &&& r matches Ok(o) && o == old(cctx).ops_map()[inst]
            &&& *final(ctx) == *old(ctx)
            &&& *final(cctx) == *old(cctx)
        },
        !old(cctx).cached_insts().contains(inst) ==> (r matches Ok(o) && old(ctx).ops@.len() <= o
            && o + 1 == final(ctx).ops@.len() && final(cctx).op_src().contains_key(o) && final(cctx).op_src()[o] == inst
            && final(ctx).ops@[o as int].operands@ == cached_operands(f, final(cctx).ops_map(), final(cctx).bbs_map(), inst)),
        !old(cctx).cached_insts().contains(inst) && (forall|j: int|
            0 <= j < f.args_of(inst).len() ==> arg_cached(
                f,
                old(cctx).cached_insts(),
                old(cctx).cached_blocks(),
                #[trigger] f.args_of(inst)[j],
            )) ==> (r matches Ok(o) && op_created(
            *old(ctx),
            *final(ctx),
            o,
            kind_of(f.opcode_of(inst)),
            cached_operands(f, old(cctx).ops_map(), old(cctx).bbs_map(), inst),
            result_types_of(f, inst),
        ) && final(cctx).op_src() == old(cctx).op_src().insert(o, inst) && final(cctx).ops_map()
            == old(cctx).ops_map().insert(inst, o) && final(cctx).bbs_map() == old(cctx).bbs_map()),
    decreases rank[inst], 2nat,
{
    match fx_map_get(&cctx.ops, inst) {
        Some(op) => {
            proof {
                lemma_cached_from_refl(cctx, old(ctx).ops@.len() as nat, old(ctx).blocks@.len() as nat);
            }
            return Ok(op);
        },
        None => {},
    }
    let op = create_inst_op(ctx, f, cctx, inst, Ghost(s), Ghost(rank))?;
    let ghost mid = *cctx;
    cctx.cache_op(inst, op);
    proof {
        assert(mid.ops_map().submap_of(cctx.ops_map()));
        assert(mid.bbs_map().submap_of(cctx.bbs_map()));
        assert(mid.op_src().submap_of(cctx.op_src()));
        lemma_operands_cached_grow(ctx, ctx, f, old(cctx), &mid, cctx);
        assert forall|i: u32| #[trigger] cctx.ops_map().contains_key(i) implies {
            &&& cctx.op_src().contains_key(cctx.ops_map()[i])
            &&& cctx.op_src()[cctx.ops_map()[i]] == i
        } by {
            if i != inst {
                assert(mid.ops_map().contains_key(i));
            }
        }
        assert(old(cctx).ops_map().submap_of(cctx.ops_map())) by {
            assert forall|i: u32| #[trigger] old(cctx).ops_map().dom().contains(i) implies cctx.ops_map().dom().contains(i)
                && old(cctx).ops_map()[i] == cctx.ops_map()[i] by {
                assert(mid.ops_map().dom().contains(i));
            }
        }
        assert forall|o: usize|
            #[trigger] cctx.op_src().contains_key(o) && !old(cctx).op_src().contains_key(o) && o != -1 implies cctx.ops_map().contains_key(
            cctx.op_src()[o],
        ) && cctx.ops_map()[cctx.op_src()[o]] == o by {
            if o != op {
                assert(mid.ops_map().contains_key(mid.op_src()[o]));
                assert(mid.op_src()[o] != inst);
            }
        }
        assert forall|i: u32| #[trigger] cctx.ops_map().contains_key(i) && !old(cctx).ops_map().contains_key(i) implies cctx.ops_map()[i]
            >= old(ctx).ops@.len() by {
            if i != inst {
                assert(mid.ops_map().contains_key(i));
            }
        }
        assert forall|i: u32|
            #[trigger] cctx.ops_map().contains_key(i) && !old(cctx).ops_map().contains_key(i) implies s.contains(i)
            && rank[i] <= rank[inst] by {
            if i != inst {
                assert(mid.ops_map().contains_key(i));
            }
        }
        let vals_mid = f.args_of(inst).map_values(|a: u32| cached_value(f, mid.ops_map(), mid.bbs_map(), a));
        let vals_new = f.args_of(inst).map_values(|a: u32| cached_value(f, cctx.ops_map(), cctx.bbs_map(), a));
        assert(vals_mid =~= vals_new) by {
            assert forall|j: int| 0 <= j < vals_mid.len() implies vals_mid[j] == vals_new[j] by {
                match f.def_of(f.args_of(inst)[j]) {
                    ValueDef::Result(i2, _) => {
                        if i2 == inst {
                            assert(false) by {
                                assert(inst_ok(f, inst));
                                assert(arg_ok(f, s, rank, old(cctx).cached_insts(), old(cctx).cached_blocks(), rank[inst], f.args_of(inst)[j]));
                            }
                        }
                    },
                    _ => {},
                }
            }
        }
        assert(cached_operands(f, mid.ops_map(), mid.bbs_map(), inst) == cached_operands(f, cctx.ops_map(), cctx.bbs_map(), inst));
    }
    Ok(op)
}

/// Creates the operation of instruction `inst`, which is not cached, converting and
/// caching first the definitions of its arguments that are not cached.  The new
/// operation is recorded but not cached.
#[verifier::spinoff_prover]
fn create_inst_op(
    ctx: &mut Context,
    f: &ClifFunction,
    cctx: &mut ConversionCtx,
    inst: u32,
    Ghost(s): Ghost<Set<u32>>,
    Ghost(rank): Ghost<Map<u32, nat>>,
) -> (r: Result<usize, ConvertError>)
    requires
        old(ctx).wf(),
        f.wf(),
        old(cctx).inv(old(ctx), f),
        closure_ok(f, s, rank, old(cctx).cached_insts(), old(cctx).cached_blocks()),
        !old(cctx).cached_insts().contains(inst),
        s.contains(inst),
    ensures
        grew_unplaced(*old(ctx), *final(ctx)),
        r matches Ok(o) && {
            &&& final(cctx).cached_from_but(old(cctx), old(ctx).ops@.len() as nat, old(ctx).blocks@.len() as nat, o as int)
            &&& old(ctx).ops@.len() <= o && o + 1 == final(ctx).ops@.len()
            &&& !old(cctx).op_src().contains_key(o)
            &&& final(cctx).op_src().contains_key(o) && final(cctx).op_src()[o] == inst
            &&& final(ctx).ops@[o as int].operands@ == cached_operands(f, final(cctx).ops_map(), final(cctx).bbs_map(), inst)
        },
        final(cctx).inv(final(ctx), f),
        operands_cached(final(ctx), f, old(cctx), final(cctx)),
        all_recorded(old(ctx), final(ctx), final(cctx)),
        forall|b: u32|
            #[trigger] final(cctx).bbs_map().contains_key(b) && !old(cctx).bbs_map().contains_key(b) ==> arg_block_of(f, s, b),
        !final(cctx).cached_insts().contains(inst),
        forall|i: u32|
            #[trigger] final(cctx).ops_map().contains_key(i) && !old(cctx).ops_map().contains_key(i) ==> s.contains(i)
                && rank[i] < rank[inst],
        (forall|j: int|
            0 <= j < f.args_of(inst).len() ==> arg_cached(
                f,
                old(cctx).cached_insts(),
                old(cctx).cached_blocks(),
                #[trigger] f.args_of(inst)[j],
            )) ==> (r matches Ok(o) && op_created(
            *old(ctx),
            *final(ctx),
            o,
            kind_of(f.opcode_of(inst)),
            cached_operands(f, old(cctx).ops_map(), old(cctx).bbs_map(), inst),
            result_types_of(f, inst),
        ) && final(cctx).op_src() == old(cctx).op_src().insert(o, inst) && final(cctx).ops_map()
            == old(cctx).ops_map() && final(cctx).bbs_map() == old(cctx).bbs_map()),
    decreases rank[inst], 1nat,
{
    let data = &f.insts[inst as usize];
    assert(inst_ok(f, inst));
    assert forall|j: int| 0 <= j < data.args@.len() implies arg_ok(
        f,
        s,
        rank,
        cctx.cached_insts(),
        cctx.cached_blocks(),
        rank[inst],
        #[trigger] data.args@[j],
    ) by {
        assert(f.args_of(inst)[j] == data.args@[j]);
    }
    let ghost vals = f.args_of(inst).map_values(|a: u32| cached_value(f, cctx.ops_map(), cctx.bbs_map(), a));
    match data.opcode {
        Opcode::Iadd => {
            let operands = convert_operands_rec(
                ctx,
                f,
                cctx,
                data.args.as_slice(),
                Ghost(s),
                Ghost(rank),
                Ghost(rank[inst]),
            )?;
            let ghost mid_ctx = *ctx;
            let ghost mid_cctx = *cctx;
            proof {
                lemma_lhs_typed(ctx, f, cctx.op_src(), cctx.block_src(), inst, operands@[0]);
            }
            let iadd_op = IAddOp::new(ctx, operands[0], operands[1]);
            let op = iadd_op.get_operation();
            cctx.op_src = Ghost(cctx.op_src@.insert(op, inst));
            proof {
                lemma_corresponds_grow(f, mid_cctx.op_src(), mid_cctx.block_src(), cctx.op_src(), cctx.block_src(), operands@[0], data.args@[0]);
                lemma_corresponds_grow(f, mid_cctx.op_src(), mid_cctx.block_src(), cctx.op_src(), cctx.block_src(), operands@[1], data.args@[1]);
                lemma_record_op(&mid_ctx, ctx, f, &mid_cctx, cctx, op, inst);
                lemma_op_created_grew(mid_ctx, *ctx, op, ctx.ops@[op as int].kind, ctx.ops@[op as int].operands@, ctx.ops@[op as int].result_types@);
                lemma_grew_unplaced_trans(*old(ctx), mid_ctx, *ctx);
                lemma_cached_then_recorded(old(cctx), &mid_cctx, cctx, &mid_ctx, f, old(ctx).ops@.len() as nat, old(ctx).blocks@.len() as nat, op, inst);
                assert(ctx.ops@[op as int].operands@ =~= cached_operands(f, cctx.ops_map(), cctx.bbs_map(), inst));
                assert forall|j: int| 0 <= j < f.args_of(inst).len() implies arg_cached(
                    f,
                    cctx.cached_insts(),
                    cctx.cached_blocks(),
                    #[trigger] f.args_of(inst)[j],
                ) by {
                    assert(data.args@[j] == f.args_of(inst)[j]);
                    assert(mid_ctx.value_in_range(operands@[j]));
                    assert(arg_cached(f, mid_cctx.cached_insts(), mid_cctx.cached_blocks(), data.args@[j]));
                }
                lemma_operands_cached_new_op(&mid_ctx, ctx, f, old(cctx), &mid_cctx, cctx, op, inst);
                if operands@ == vals {
                    assert(ctx.ops@[op as int].operands@ =~= vals.take(2));
                }
            }
            Ok(op)
        },
        Opcode::Imul => {
            let operands = convert_operands_rec(
                ctx,
                f,
                cctx,
                data.args.as_slice(),
                Ghost(s),
                Ghost(rank),
                Ghost(rank[inst]),
            )?;
            let ghost mid_ctx = *ctx;
            let ghost mid_cctx = *cctx;
            proof {
                lemma_lhs_typed(ctx, f, cctx.op_src(), cctx.block_src(), inst, operands@[0]);
            }
            let imul_op = IMulOp::new(ctx, operands[0], operands[1]);
            let op = imul_op.get_operation();
            cctx.op_src = Ghost(cctx.op_src@.insert(op, inst));
            proof {
                lemma_corresponds_grow(f, mid_cctx.op_src(), mid_cctx.block_src(), cctx.op_src(), cctx.block_src(), operands@[0], data.args@[0]);
                lemma_corresponds_grow(f, mid_cctx.op_src(), mid_cctx.block_src(), cctx.op_src(), cctx.block_src(), operands@[1], data.args@[1]);
                lemma_record_op(&mid_ctx, ctx, f, &mid_cctx, cctx, op, inst);
                lemma_op_created_grew(mid_ctx, *ctx, op, ctx.ops@[op as int].kind, ctx.ops@[op as int].operands@, ctx.ops@[op as int].result_types@);
                lemma_grew_unplaced_trans(*old(ctx), mid_ctx, *ctx);
                lemma_cached_then_recorded(old(cctx), &mid_cctx, cctx, &mid_ctx, f, old(ctx).ops@.len() as nat, old(ctx).blocks@.len() as nat, op, inst);
                assert(ctx.ops@[op as int].operands@ =~= cached_operands(f, cctx.ops_map(), cctx.bbs_map(), inst));
                assert forall|j: int| 0 <= j < f.args_of(inst).len() implies arg_cached(
                    f,
                    cctx.cached_insts(),
                    cctx.cached_blocks(),
                    #[trigger] f.args_of(inst)[j],
                ) by {
                    assert(data.args@[j] == f.args_of(inst)[j]);
                    assert(mid_ctx.value_in_range(operands@[j]));
                    assert(arg_cached(f, mid_cctx.cached_insts(), mid_cctx.cached_blocks(), data.args@[j]));
                }
                lemma_operands_cached_new_op(&mid_ctx, ctx, f, old(cctx), &mid_cctx, cctx, op, inst);
                if operands@ == vals {
                    assert(ctx.ops@[op as int].operands@ =~= vals.take(2));
                }
            }
            Ok(op)
        },
        Opcode::Return => {
            match data.args.len() {
                0 => {
                    let ghost mid_ctx = *ctx;
                    let ghost mid_cctx = *cctx;
                    proof {
                        lemma_cached_from_refl(cctx, old(ctx).ops@.len() as nat, old(ctx).blocks@.len() as nat);
                    }
                    let return_op = ReturnOp::new(ctx, None);
                    let op = return_op.get_operation();
                    cctx.op_src = Ghost(cctx.op_src@.insert(op, inst));
                    proof {
                        assert(ctx.ops@[op as int].operands@ =~= seq![]);
                        assert(vals =~= seq![]);
                        lemma_record_op(&mid_ctx, ctx, f, &mid_cctx, cctx, op, inst);
                        lemma_op_created_grew(mid_ctx, *ctx, op, ctx.ops@[op as int].kind, ctx.ops@[op as int].operands@, ctx.ops@[op as int].result_types@);
                        lemma_grew_unplaced_trans(*old(ctx), mid_ctx, *ctx);
                        lemma_cached_then_recorded(old(cctx), &mid_cctx, cctx, &mid_ctx, f, old(ctx).ops@.len() as nat, old(ctx).blocks@.len() as nat, op, inst);
                assert(ctx.ops@[op as int].operands@ =~= cached_operands(f, cctx.ops_map(), cctx.bbs_map(), inst));
                assert forall|j: int| 0 <= j < f.args_of(inst).len() implies arg_cached(
                    f,
                    cctx.cached_insts(),
                    cctx.cached_blocks(),
                    #[trigger] f.args_of(inst)[j],
                ) by {
                    assert(data.args@[j] == f.args_of(inst)[j]);
                }
                lemma_operands_cached_new_op(&mid_ctx, ctx, f, old(cctx), &mid_cctx, cctx, op, inst);
                    }
                    Ok(op)
                },
                1 => {
                    let operands = convert_operands_rec(
                        ctx,
                        f,
                        cctx,
                        data.args.as_slice(),
                        Ghost(s),
                        Ghost(rank),
                        Ghost(rank[inst]),
                    )?;
                    let ghost mid_ctx = *ctx;
                    let ghost mid_cctx = *cctx;
                    let return_op = ReturnOp::new(ctx, Some(operands[0]));
                    let op = return_op.get_operation();
                    cctx.op_src = Ghost(cctx.op_src@.insert(op, inst));
                    proof {
                        lemma_corresponds_grow(f, mid_cctx.op_src(), mid_cctx.block_src(), cctx.op_src(), cctx.block_src(), operands@[0], data.args@[0]);
                        assert(ctx.ops@[op as int].operands@ =~= seq![operands@[0]]);
                        if operands@ == vals {
                            assert(ctx.ops@[op as int].operands@ =~= vals);
                        }
                        assert forall|j: int| 0 <= j < f.args_of(inst).len() implies corresponds(
                            f,
                            cctx.op_src(),
                            cctx.block_src(),
                            #[trigger] ctx.ops@[op as int].operands@[j],
                            f.args_of(inst)[j],
                        ) by {
                            assert(j == 0);
                        }
                        lemma_record_op(&mid_ctx, ctx, f, &mid_cctx, cctx, op, inst);
                        lemma_op_created_grew(mid_ctx, *ctx, op, ctx.ops@[op as int].kind, ctx.ops@[op as int].operands@, ctx.ops@[op as int].result_types@);
                        lemma_grew_unplaced_trans(*old(ctx), mid_ctx, *ctx);
                        lemma_cached_then_recorded(old(cctx), &mid_cctx, cctx, &mid_ctx, f, old(ctx).ops@.len() as nat, old(ctx).blocks@.len() as nat, op, inst);
                assert(ctx.ops@[op as int].operands@ =~= cached_operands(f, cctx.ops_map(), cctx.bbs_map(), inst));
                assert forall|j: int| 0 <= j < f.args_of(inst).len() implies arg_cached(
                    f,
                    cctx.cached_insts(),
                    cctx.cached_blocks(),
                    #[trigger] f.args_of(inst)[j],
                ) by {
                    assert(data.args@[j] == f.args_of(inst)[j]);
                    assert(mid_ctx.value_in_range(operands@[j]));
                    assert(arg_cached(f, mid_cctx.cached_insts(), mid_cctx.cached_blocks(), data.args@[j]));
                }
                lemma_operands_cached_new_op(&mid_ctx, ctx, f, old(cctx), &mid_cctx, cctx, op, inst);
                    }
                    Ok(op)
                },
                _ => {
                    proof {
                        assert(false);
                    }
                    Err(ConvertError::Unsupported)
                },
            }
        },
        Opcode::Other => {
            proof {
                assert(false);
            }
            Err(ConvertError::Unsupported)
        },
    }
}

/// Instruction `i` can be converted once the definitions of its arguments are cached: an
/// addition of at least two arguments whose first has a type, or a return of at most one
/// value.
pub open spec fn inst_ok_rpo(f: &ClifFunction, i: u32) -> bool {
    &&& i < f.insts@.len()
    &&& match f.opcode_of(i) {
        Opcode::Iadd => f.args_of(i).len() >= 2 && lhs_ok(f, i),
        Opcode::Return => f.args_of(i).len() <= 1,
        _ => false,
    }
}

/// Argument `a` is a result of an instruction in `ci` or a parameter of a block in `cb`.
pub open spec fn arg_cached(f: &ClifFunction, ci: Set<u32>, cb: Set<u32>, a: u32) -> bool {
    &&& a < f.values@.len()
    &&& match f.def_of(a) {
        ValueDef::Result(i, _) => ci.contains(i),
        ValueDef::Param(b, _) => cb.contains(b),
        ValueDef::Union(..) => false,
    }
}

/// The IR value of Cranelift value `a`, taken from the cached operations `ops` and blocks
/// `bbs`: the same result of the operation of its instruction, or the same argument of
/// the block of its block.
pub open spec fn cached_value(f: &ClifFunction, ops: Map<u32, usize>, bbs: Map<u32, usize>, a: u32) -> Value {
    match f.def_of(a) {
        ValueDef::Result(i, n) => Value::OpResult { op: ops[i], res_idx: n },
        ValueDef::Param(b, n) => Value::BlockArgument { block: bbs[b], arg_idx: n },
        ValueDef::Union(..) => Value::OpResult { op: 0, res_idx: 0 },
    }
}

/// The operands of the operation converted from instruction `i` when the definitions of
/// its arguments are cached: the first two arguments of a binary instruction, all the
/// arguments of a return.
pub open spec fn cached_operands(f: &ClifFunction, ops: Map<u32, usize>, bbs: Map<u32, usize>, i: u32) -> Seq<
    Value,
> {
    let vals = f.args_of(i).map_values(|a: u32| cached_value(f, ops, bbs, a));
    match f.opcode_of(i) {
        Opcode::Iadd | Opcode::Imul => vals.take(2),
        _ => vals,
    }
}

/// The result types of the operation converted from instruction `i`: one signed 32-bit
/// integer for a binary instruction, none for a return.
pub open spec fn result_types_of(f: &ClifFunction, i: u32) -> Seq<IntegerType> {
    match f.opcode_of(i) {
        Opcode::Iadd | Opcode::Imul => seq![si32()],
        _ => seq![],
    }
}

/// A cached value exists in the context and stands for its Cranelift value.
proof fn lemma_cached_value(ctx: &Context, f: &ClifFunction, cctx: &ConversionCtx, a: u32)
    requires
        cctx.inv(ctx, f),
        arg_cached(f, cctx.cached_insts(), cctx.cached_blocks(), a),
    ensures
        ctx.value_in_range(cached_value(f, cctx.ops_map(), cctx.bbs_map(), a)),
        corresponds(f, cctx.op_src(), cctx.block_src(), cached_value(f, cctx.ops_map(), cctx.bbs_map(), a), a),
{
    match f.def_of(a) {
        ValueDef::Result(i, _) => {
            assert(cctx.ops_map().contains_key(i));
            assert(cctx.op_src().contains_key(cctx.ops_map()[i]));
        },
        ValueDef::Param(b, _) => {
            assert(cctx.bbs_map().contains_key(b));
            assert(cctx.block_src().contains_key(cctx.bbs_map()[b]));
        },
        ValueDef::Union(..) => {},
    }
}

/// Converts the Cranelift values `operands`, whose definitions are all cached.
pub fn convert_operands_w_rpo(f: &ClifFunction, cctx: &ConversionCtx, operands: &[u32]) -> (r: Result<
    Vec<Value>,
    ConvertError,
>)
    requires
        f.wf(),
        forall|j: int|
            0 <= j < operands@.len() ==> arg_cached(
                f,
                cctx.cached_insts(),
                cctx.cached_blocks(),
                #[trigger] operands@[j],
            ),
    ensures
        r matches Ok(vs) && vs@ == operands@.map_values(|a: u32| cached_value(f, cctx.ops_map(), cctx.bbs_map(), a)),
{
    let mut result: Vec<Value> = Vec::new();
    let mut j: usize = 0;
    while j < operands.len()
        invariant
            f.wf(),
            forall|jj: int|
                0 <= jj < operands@.len() ==> arg_cached(
                    f,
                    cctx.cached_insts(),
                    cctx.cached_blocks(),
                    #[trigger] operands@[jj],
                ),
            j <= operands@.len(),
            result@ == operands@.subrange(0, j as int).map_values(
                |a: u32| cached_value(f, cctx.ops_map(), cctx.bbs_map(), a),
            ),
        decreases operands@.len() - j,
    {
        let operand = operands[j];
        assert(arg_cached(f, cctx.cached_insts(), cctx.cached_blocks(), operands@[j as int]));
        let v = match f.values[operand as usize].def {
            ValueDef::Result(inst, idx) => {
                let op = cctx.cached_op(inst).unwrap();
                Value::OpResult { op, res_idx: idx }
            },
            ValueDef::Param(block, idx) => {
                let bb = cctx.cached_block(block).unwrap();
                Value::BlockArgument { block: bb, arg_idx: idx }
            },
            ValueDef::Union(_value, _value1) => {
                proof {
                    assert(false);
                }
                return Err(ConvertError::Unsupported);
            },
        };
        result.push(v);
        j = j + 1;
        proof {
            assert(result@ =~= operands@.subrange(0, j as int).map_values(
                |a: u32| cached_value(f, cctx.ops_map(), cctx.bbs_map(), a),
            ));
        }
    }
    proof {
        assert(operands@.subrange(0, j as int) =~= operands@);
    }
    Ok(result)
}

/// Converts instruction `inst`, whose arguments have cached definitions, into a new
/// operation, without looking at the cache for `inst` itself.
#[verifier::spinoff_prover]
pub fn convert_instruction_w_rpo(
    ctx: &mut Context,
    f: &ClifFunction,
    cctx: &mut ConversionCtx,
    inst: u32,
) -> (r: Result<usize, ConvertError>)
    requires
        old(ctx).wf(),
        f.wf(),
        old(cctx).inv(old(ctx), f),
        inst_ok_rpo(f, inst),
        forall|j: int|
            0 <= j < f.args_of(inst).len() ==> arg_cached(
                f,
                old(cctx).cached_insts(),
                old(cctx).cached_blocks(),
                #[trigger] f.args_of(inst)[j],
            ),
    ensures
        r matches Ok(o) && {
            &&& op_created(
                *old(ctx),
                *final(ctx),
                o,
                kind_of(f.opcode_of(inst)),
                cached_operands(f, old(cctx).ops_map(), old(cctx).bbs_map(), inst),
                result_types_of(f, inst),
            )
            &&& final(cctx).op_src() == old(cctx).op_src().insert(o, inst)
            &&& final(cctx).block_src() == old(cctx).block_src()
        },
        grew_unplaced(*old(ctx), *final(ctx)),
        final(cctx).recorded_from(old(cctx)),
        final(cctx).inv(final(ctx), f),
{
    let data = &f.insts[inst as usize];
    let ghost vals = f.args_of(inst).map_values(|a: u32| cached_value(f, cctx.ops_map(), cctx.bbs_map(), a));
    proof {
        assert forall|j: int| 0 <= j < data.args@.len() implies ctx.value_in_range(#[trigger] vals[j])
            && corresponds(f, cctx.op_src(), cctx.block_src(), vals[j], f.args_of(inst)[j]) by {
            assert(arg_cached(f, cctx.cached_insts(), cctx.cached_blocks(), f.args_of(inst)[j]));
            lemma_cached_value(ctx, f, cctx, f.args_of(inst)[j]);
        }
    }
    let ghost mid_ctx = *ctx;
    let ghost mid_cctx = *cctx;
    match data.opcode {
        Opcode::Iadd => {
            let operands = convert_operands_w_rpo(f, cctx, data.args.as_slice());
            let operands = operands.unwrap();
            proof {
                assert(operands@ == vals);
                lemma_lhs_typed(ctx, f, cctx.op_src(), cctx.block_src(), inst, operands@[0]);
            }
            let iadd_op = IAddOp::new(ctx, operands[0], operands[1]);
            let op = iadd_op.get_operation();
            cctx.op_src = Ghost(cctx.op_src@.insert(op, inst));
            proof {
                lemma_corresponds_grow(f, mid_cctx.op_src(), mid_cctx.block_src(), cctx.op_src(), cctx.block_src(), operands@[0], data.args@[0]);
                lemma_corresponds_grow(f, mid_cctx.op_src(), mid_cctx.block_src(), cctx.op_src(), cctx.block_src(), operands@[1], data.args@[1]);
                lemma_record_op(&mid_ctx, ctx, f, &mid_cctx, cctx, op, inst);
                lemma_op_created_grew(mid_ctx, *ctx, op, ctx.ops@[op as int].kind, ctx.ops@[op as int].operands@, ctx.ops@[op as int].result_types@);
                assert(ctx.ops@[op as int].operands@ =~= vals.take(2));
            }
            Ok(op)
        },
        Opcode::Return => {
            match data.args.len() {
                0 => {
                    let return_op = ReturnOp::new(ctx, None);
                    let op = return_op.get_operation();
                    cctx.op_src = Ghost(cctx.op_src@.insert(op, inst));
                    proof {
                        assert(ctx.ops@[op as int].operands@ =~= vals);
                        lemma_record_op(&mid_ctx, ctx, f, &mid_cctx, cctx, op, inst);
                        lemma_op_created_grew(mid_ctx, *ctx, op, ctx.ops@[op as int].kind, ctx.ops@[op as int].operands@, ctx.ops@[op as int].result_types@);
                    }
                    Ok(op)
                },
                1 => {
                    let operands = convert_operands_w_rpo(f, cctx, data.args.as_slice());
                    let operands = operands.unwrap();
                    proof {
                        assert(operands@ == vals);
                    }
                    let return_op = ReturnOp::new(ctx, Some(operands[0]));
                    let op = return_op.get_operation();
                    cctx.op_src = Ghost(cctx.op_src@.insert(op, inst));
                    proof {
                        lemma_corresponds_grow(f, mid_cctx.op_src(), mid_cctx.block_src(), cctx.op_src(), cctx.block_src(), operands@[0], data.args@[0]);
                        assert(ctx.ops@[op as int].operands@ =~= vals);
                        assert forall|j: int| 0 <= j < f.args_of(inst).len() implies corresponds(
                            f,
                            cctx.op_src(),
                            cctx.block_src(),
                            #[trigger] ctx.ops@[op as int].operands@[j],
                            f.args_of(inst)[j],
                        ) by {
                            assert(j == 0);
                        }
                        lemma_record_op(&mid_ctx, ctx, f, &mid_cctx, cctx, op, inst);
                        lemma_op_created_grew(mid_ctx, *ctx, op, ctx.ops@[op as int].kind, ctx.ops@[op as int].operands@, ctx.ops@[op as int].result_types@);
                    }
                    Ok(op)
                },
                _ => {
                    proof {
                        assert(false);
                    }
                    Err(ConvertError::Unsupported)
                },
            }
        },
        _ => {
            proof {
                assert(false);
            }
            Err(ConvertError::Unsupported)
        },
    }
}

/// The instructions of `target` can be converted with the instructions `ci` and the
/// blocks `cb` cached: some ranked set of convertible instructions holds them all.
pub open spec fn convertible(f: &ClifFunction, ci: Set<u32>, cb: Set<u32>, target: Set<u32>) -> bool {
    exists|s: Set<u32>, rank: Map<u32, nat>| #[trigger] closure_ok(f, s, rank, ci, cb) && target.subset_of(s)
}

/// The values `operands` can be converted with the instructions `ci` and the blocks `cb`
/// cached: the definitions of their results that are not cached lie in some ranked set
/// of convertible instructions.
pub open spec fn operands_convertible(f: &ClifFunction, ci: Set<u32>, cb: Set<u32>, operands: Seq<u32>) -> bool {
    exists|s: Set<u32>, rank: Map<u32, nat>, bound: nat|
        closure_ok(f, s, rank, ci, cb) && #[trigger] args_ok(f, s, rank, ci, cb, bound, operands)
}

/// Every value of `operands` satisfies [`arg_ok`].
pub open spec fn args_ok(
    f: &ClifFunction,
    s: Set<u32>,
    rank: Map<u32, nat>,
    ci: Set<u32>,
    cb: Set<u32>,
    bound: nat,
    operands: Seq<u32>,
) -> bool {
    forall|j: int| 0 <= j < operands.len() ==> arg_ok(f, s, rank, ci, cb, bound, #[trigger] operands[j])
}

/// Converts the Cranelift values `operands` to IR values.  A result of an instruction
/// becomes the same result of the instruction's operation, a block parameter the same
/// argument of the block's IR block; definitions that are not cached are converted on
/// demand, and cached, as by [`convert_instruction`] and [`convert_block`]; each value is
/// then the cached operation result or block argument of its definition.  When all of
/// them are cached, nothing changes.
#[verifier::spinoff_prover]
pub fn convert_operands(ctx: &mut Context, f: &ClifFunction, cctx: &mut ConversionCtx, operands: &[u32]) -> (r:
    Result<Vec<Value>, ConvertError>)
    requires
        old(ctx).wf(),
        f.wf(),
        old(cctx).inv(old(ctx), f),
        operands_convertible(f, old(cctx).cached_insts(), old(cctx).cached_blocks(), operands@),
    ensures
        grew_unplaced(*old(ctx), *final(ctx)),
        final(cctx).cached_from(old(cctx), old(ctx).ops@.len() as nat, old(ctx).blocks@.len() as nat),
        final(cctx).inv(final(ctx), f),
        operands_cached(final(ctx), f, old(cctx), final(cctx)),
        r matches Ok(vs) && vs@.len() == operands@.len() && forall|j: int|
            0 <= j < operands@.len() ==> {
                &&& final(ctx).value_in_range(#[trigger] vs@[j])
                &&& corresponds(f, final(cctx).op_src(), final(cctx).block_src(), vs@[j], operands@[j])
                &&& arg_cached(f, final(cctx).cached_insts(), final(cctx).cached_blocks(), operands@[j])
                &&& vs@[j] == cached_value(f, final(cctx).ops_map(), final(cctx).bbs_map(), operands@[j])
            },
        (forall|j: int|
            0 <= j < operands@.len() ==> arg_cached(
                f,
                old(cctx).cached_insts(),
                old(cctx).cached_blocks(),
                #[trigger] operands@[j],
            )) ==> {
            &&& *final(ctx) == *old(ctx)
            &&& *final(cctx) == *old(cctx)
            &&& r matches Ok(vs) && vs@ == operands@.map_values(
                |a: u32| cached_value(f, old(cctx).ops_map(), old(cctx).bbs_map(), a),
            )
        },
{
    let ghost (s, rank, bound) = choose|s: Set<u32>, rank: Map<u32, nat>, bound: nat|
        closure_ok(f, s, rank, cctx.cached_insts(), cctx.cached_blocks()) && #[trigger] args_ok(
            f,
            s,
            rank,
            cctx.cached_insts(),
            cctx.cached_blocks(),
            bound,
            operands@,
        );
    convert_operands_rec(ctx, f, cctx, operands, Ghost(s), Ghost(rank), Ghost(bound))
}

/// Converts Cranelift instruction `inst` to an IR operation.  A cached instruction gives
/// its cached operation and nothing changes.  Otherwise the definitions of its arguments
/// that are not cached are converted first, then a new operation is created for `inst`:
/// `clif.iadd` or `clif.imul` of its first two arguments, or `clif.return` of its
/// arguments, on the cached values of the arguments.  Every operation created is cached
/// for its instruction, so that no instruction is converted twice, and none is placed.
/// When the definitions of all its arguments are cached, exactly one operation is
/// created.
#[verifier::spinoff_prover]
pub fn convert_instruction(ctx: &mut Context, f: &ClifFunction, cctx: &mut ConversionCtx, inst: u32) -> (r:
    Result<usize, ConvertError>)
    requires
        old(ctx).wf(),
        f.wf(),
        old(cctx).inv(old(ctx), f),
        old(cctx).cached_insts().contains(inst) || convertible(
            f,
            old(cctx).cached_insts(),
            old(cctx).cached_blocks(),
            set![inst],
        ),
    ensures
        grew_unplaced(*old(ctx), *final(ctx)),
        final(cctx).cached_from(old(cctx), old(ctx).ops@.len() as nat, old(ctx).blocks@.len() as nat),
        final(cctx).ops_map().contains_key(inst) && r == Ok::<usize, ConvertError>(final(cctx).ops_map()[inst]),
        final(cctx).inv(final(ctx), f),
        operands_cached(final(ctx), f, old(cctx), final(cctx)),
        r is Ok,
        old(cctx).cached_insts().contains(inst) ==> {
            &&& r == Ok::<usize, ConvertError>(old(cctx).ops_map()[inst])
            &&& *final(ctx) == *old(ctx)
            &&& *final(cctx) == *old(cctx)
        },
        !old(cctx).cached_insts().contains(inst) ==> (r matches Ok(o) && old(ctx).ops@.len() <= o
            && o + 1 == final(ctx).ops@.len() && final(cctx).op_src().contains_key(o)
            && final(cctx).op_src()[o] == inst && final(ctx).ops@[o as int].operands@ == cached_operands(
            f,
            final(cctx).ops_map(),
            final(cctx).bbs_map(),
            inst,
        ) && faithful_op(
            final(ctx),
            f,
            final(cctx).op_src(),
            final(cctx).block_src(),
            o,
        )),
        !old(cctx).cached_insts().contains(inst) && (forall|j: int|
            0 <= j < f.args_of(inst).len() ==> arg_cached(
                f,
                old(cctx).cached_insts(),
                old(cctx).cached_blocks(),
                #[trigger] f.args_of(inst)[j],
            )) ==> (r matches Ok(o) && op_created(
            *old(ctx),
            *final(ctx),
            o,
            kind_of(f.opcode_of(inst)),
            cached_operands(f, old(cctx).ops_map(), old(cctx).bbs_map(), inst),
            result_types_of(f, inst),
        ) && final(cctx).op_src() == old(cctx).op_src().insert(o, inst) && final(cctx).ops_map()
            == old(cctx).ops_map().insert(inst, o) && final(cctx).bbs_map() == old(cctx).bbs_map()),
{
    if cctx.cached_op(inst).is_some() {
        return convert_instruction_rec(ctx, f, cctx, inst, Ghost(Set::empty()), Ghost(Map::empty()));
    }
    let ghost (s, rank) = choose|s: Set<u32>, rank: Map<u32, nat>|
        #[trigger] closure_ok(f, s, rank, cctx.cached_insts(), cctx.cached_blocks()) && set![inst].subset_of(s);
    proof {
        assert(set![inst].contains(inst));
    }
    convert_instruction_rec(ctx, f, cctx, inst, Ghost(s), Ghost(rank))
}

} // verus!
