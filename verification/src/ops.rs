//! The operations of the CLIF dialect (`clif.iadd`, `clif.isub`, `clif.imul`,
//! `clif.return`) and the builtin function operation, as handles into a [`Context`].
use crate::ir::{Context, FuncAttrs, FunctionType, IntegerType, OpKind, Value};
use vstd::prelude::*;

verus! {

/// The sequence of operands of a `clif.return` that returns `value`.
pub open spec fn return_operands(value: Option<Value>) -> Seq<Value> {
    match value {
        Some(v) => seq![v],
        None => seq![],
    }
}

/// The builtin function operation: a symbol name, a function type and one region whose
/// first block (the entry block) takes the function's arguments.
pub struct FuncOp {
    pub op: usize,
}

impl FuncOp {
    /// Creates a function named `name` of type `ty`, with a single region holding an
    /// empty entry block labelled `entry` whose arguments have the input types of `ty`.
    pub fn new(ctx: &mut Context, name: String, ty: FunctionType) -> (f: FuncOp)
        requires
            old(ctx).wf(),
            old(ctx).regions@.len() < usize::MAX,
        ensures
            final(ctx).wf(),
            final(ctx).extends(old(ctx)),
            f.op == old(ctx).ops@.len(),
            final(ctx).ops@.len() == old(ctx).ops@.len() + 1,
            final(ctx).blocks@.len() == old(ctx).blocks@.len() + 1,
            final(ctx).regions@.len() == old(ctx).regions@.len() + 1,
            final(ctx).ops@[f.op as int].kind == OpKind::Func,
            final(ctx).ops@[f.op as int].operands@.len() == 0,
            final(ctx).ops@[f.op as int].result_types@.len() == 0,
            final(ctx).ops@[f.op as int].regions@ == seq![old(ctx).regions.len()],
            final(ctx).ops@[f.op as int].attrs == Some(FuncAttrs { sym_name: name, func_type: ty }),
            final(ctx).blocks@[old(ctx).blocks@.len() as int].label matches Some(l) && l@ == "entry"@,
            final(ctx).blocks@[old(ctx).blocks@.len() as int].arg_types@ == ty.inputs@,
            final(ctx).blocks_of(old(ctx).regions@.len() as int) == seq![old(ctx).blocks.len()],
            final(ctx).op_parent@ == old(ctx).op_parent@.push(None),
            final(ctx).block_ops@.len() == final(ctx).blocks@.len(),
            forall|b: int|
                0 <= b < old(ctx).blocks@.len() ==> #[trigger] final(ctx).block_ops@[b] == old(ctx).block_ops@[b],
            final(ctx).block_ops@[old(ctx).blocks@.len() as int]@.len() == 0,
            final(ctx).block_parent@ == old(ctx).block_parent@.push(
                Some(old(ctx).regions.len()),
            ),
            forall|r: int|
                0 <= r < old(ctx).regions@.len() ==> #[trigger] final(ctx).region_blocks@[r] == old(ctx).region_blocks@[r],
    {
        let mut arg_types: Vec<IntegerType> = Vec::new();
        let mut i: usize = 0;
        while i < ty.inputs.len()
            invariant
                i <= ty.inputs@.len(),
                arg_types@ == ty.inputs@.subrange(0, i as int),
            decreases ty.inputs@.len() - i,
        {
            arg_types.push(ty.inputs[i]);
            i = i + 1;
            proof {
                assert(arg_types@ =~= ty.inputs@.subrange(0, i as int));
            }
        }
        proof {
            assert(arg_types@ =~= ty.inputs@);
        }
        let ghost inputs = ty.inputs@;
        let op = ctx.create_op(
            OpKind::Func,
            Vec::new(),
            Vec::new(),
            1,
            Some(FuncAttrs { sym_name: name, func_type: ty }),
        );
        let region = ctx.ops[op].regions[0];
        let entry = ctx.create_block(Some(String::from_str("entry")), arg_types);
        ctx.insert_block_at_front(entry, region);
        proof {
            assert(ctx.blocks_of(region as int) =~= seq![entry]);
            assert(ctx.ops@[op as int].regions@ =~= seq![old(ctx).regions.len()]);
        }
        FuncOp { op }
    }

    /// The underlying operation.
    pub fn get_operation(&self) -> (op: usize)
        ensures
            op == self.op,
    {
        self.op
    }

    /// The body region of the function.
    pub fn get_region(&self, ctx: &Context) -> (r: usize)
        requires
            self.op < ctx.ops@.len(),
            ctx.ops@[self.op as int].regions@.len() > 0,
        ensures
            r == ctx.ops@[self.op as int].regions@[0],
    {
        ctx.ops[self.op].regions[0]
    }

    /// The entry block of the function: the first block of its region.
    pub fn get_entry_block(&self, ctx: &Context) -> (b: usize)
        requires
            ctx.wf(),
            self.op < ctx.ops@.len(),
            ctx.ops@[self.op as int].regions@.len() > 0,
            ctx.blocks_of(ctx.ops@[self.op as int].regions@[0] as int).len() > 0,
        ensures
            b == ctx.blocks_of(ctx.ops@[self.op as int].regions@[0] as int)[0],
    {
        let r = ctx.ops[self.op].regions[0];
        ctx.region_blocks[r][0]
    }
}

/// Creates a binary operation of kind `kind` on `lhs` and `rhs`; its single result has
/// the type of `lhs`.
fn new_bin_op(ctx: &mut Context, kind: OpKind, lhs: Value, rhs: Value) -> (op: usize)
    requires
        old(ctx).wf(),
        old(ctx).value_has_type(lhs),
        old(ctx).value_in_range(rhs),
    ensures
        bin_op_created(*old(ctx), *final(ctx), op, kind, lhs, rhs),
{
    let ty = ctx.value_type(lhs);
    let mut operands: Vec<Value> = Vec::new();
    operands.push(lhs);
    operands.push(rhs);
    let mut results: Vec<IntegerType> = Vec::new();
    results.push(ty);
    let op = ctx.create_op(kind, operands, results, 0, None);
    proof {
        assert(ctx.ops@[op as int].operands@ =~= seq![lhs, rhs]);
        assert(ctx.ops@[op as int].result_types@ =~= seq![old(ctx).spec_value_type(lhs)]);
        assert(ctx.region_blocks@ =~= old(ctx).region_blocks@);
        assert(ctx.block_ops@ =~= old(ctx).block_ops@);
    }
    op
}

/// `new` is `old` with one more, unplaced, operation `op` of kind `kind` that takes
/// `operands`, has results of types `results` and no region.
pub open spec fn op_created(
    old: Context,
    new: Context,
    op: usize,
    kind: OpKind,
    operands: Seq<Value>,
    results: Seq<IntegerType>,
) -> bool {
    &&& new.wf()
    &&& new.extends(&old)
    &&& op == old.ops@.len()
    &&& new.ops@.len() == old.ops@.len() + 1
    &&& new.blocks@.len() == old.blocks@.len()
    &&& new.regions@.len() == old.regions@.len()
    &&& new.ops@[op as int].kind == kind
    &&& new.ops@[op as int].operands@ == operands
    &&& new.ops@[op as int].result_types@ == results
    &&& new.ops@[op as int].regions@.len() == 0
    &&& new.ops@[op as int].attrs is None
    &&& new.op_parent@ == old.op_parent@.push(None)
    &&& new.block_ops@ == old.block_ops@
    &&& new.block_parent@ == old.block_parent@
    &&& new.region_blocks@ == old.region_blocks@
}

/// Creating an operation is deterministic: two contexts that both extend `old` with one
/// new operation of the same kind, operands and result types hold it at the same index,
/// with the same contents and placements.  So [`crate::convert::convert_instruction`] and
/// [`crate::convert::convert_instruction_w_rpo`], whose contracts both state
/// `op_created` for an instruction whose arguments are all cached, build the same
/// operation from equal states.
pub proof fn lemma_op_created_unique(
    old: Context,
    new1: Context,
    new2: Context,
    o1: usize,
    o2: usize,
    kind: OpKind,
    operands: Seq<Value>,
    results: Seq<IntegerType>,
)
    requires
        op_created(old, new1, o1, kind, operands, results),
        op_created(old, new2, o2, kind, operands, results),
    ensures
        o1 == o2,
        new1.ops@.len() == new2.ops@.len(),
        new1.ops@[o1 as int].kind == new2.ops@[o2 as int].kind,
        new1.ops@[o1 as int].operands@ == new2.ops@[o2 as int].operands@,
        new1.ops@[o1 as int].result_types@ == new2.ops@[o2 as int].result_types@,
        new1.ops@[o1 as int].regions@ == new2.ops@[o2 as int].regions@,
        new1.ops@[o1 as int].attrs == new2.ops@[o2 as int].attrs,
        forall|o: int| 0 <= o < old.ops@.len() ==> #[trigger] new1.ops@[o] == new2.ops@[o],
        new1.op_parent@ == new2.op_parent@,
        new1.block_ops@ == new2.block_ops@,
        new1.block_parent@ == new2.block_parent@,
        new1.region_blocks@ == new2.region_blocks@,
{
    assert(new1.ops@[o1 as int].regions@ =~= new2.ops@[o2 as int].regions@);
}

/// `new` is `old` with one more binary operation `op` of kind `kind` on `lhs` and `rhs`,
/// whose result has the type of `lhs`.
pub open spec fn bin_op_created(
    old: Context,
    new: Context,
    op: usize,
    kind: OpKind,
    lhs: Value,
    rhs: Value,
) -> bool {
    op_created(old, new, op, kind, seq![lhs, rhs], seq![old.spec_value_type(lhs)])
}

/// `clif.return`: returns from the function, with zero or one value.
pub struct ReturnOp {
    pub op: usize,
}

impl ReturnOp {
    /// Creates a `clif.return` of `value`, if any.
    pub fn new(ctx: &mut Context, value: Option<Value>) -> (r: ReturnOp)
        requires
            old(ctx).wf(),
            value matches Some(v) ==> old(ctx).value_in_range(v),
        ensures
            op_created(*old(ctx), *final(ctx), r.op, OpKind::Return, return_operands(value), seq![]),
    {
        let mut operands: Vec<Value> = Vec::new();
        match value {
            Some(v) => operands.push(v),
            None => {},
        }
        let op = ctx.create_op(OpKind::Return, operands, Vec::new(), 0, None);
        proof {
            assert(ctx.ops@[op as int].operands@ =~= return_operands(value));
            assert(ctx.ops@[op as int].result_types@ =~= seq![]);
            assert(ctx.region_blocks@ =~= old(ctx).region_blocks@);
            assert(ctx.block_ops@ =~= old(ctx).block_ops@);
        }
        ReturnOp { op }
    }

    /// The returned value, if there is exactly one operand.
    pub fn retval(&self, ctx: &Context) -> (v: Option<Value>)
        requires
            self.op < ctx.ops@.len(),
        ensures
            v == return_value(ctx, self.op),
    {
        let operation = &ctx.ops[self.op];
        if operation.operands.len() == 1 {
            Some(operation.operands[0])
        } else {
            None
        }
    }

    /// The underlying operation.
    pub fn get_operation(&self) -> (op: usize)
        ensures
            op == self.op,
    {
        self.op
    }
}

/// The value returned by operation `op`: its operand when it has exactly one.
pub open spec fn return_value(ctx: &Context, op: usize) -> Option<Value> {
    if ctx.ops@[op as int].operands@.len() == 1 {
        Some(ctx.ops@[op as int].operands@[0])
    } else {
        None
    }
}

/// A return gives back the value it was created with: after `ReturnOp::new(ctx, value)`
/// creates operation `op`, `retval` of `op` is `value`, and it stays so while the context
/// only grows.
pub proof fn lemma_retval_of_new(
    before: Context,
    after: Context,
    later: Context,
    op: usize,
    value: Option<Value>,
)
    requires
        op_created(before, after, op, OpKind::Return, return_operands(value), seq![]),
        later.extends(&after),
    ensures
        return_value(&after, op) == value,
        return_value(&later, op) == value,
{
    assert(later.ops@[op as int] == after.ops@[op as int]);
}

/// `clif.iadd`: integer addition.
pub struct IAddOp {
    pub op: usize,
}

impl IAddOp {
    /// Creates `lhs + rhs`; the result has the type of `lhs`.
    pub fn new(ctx: &mut Context, lhs: Value, rhs: Value) -> (r: IAddOp)
        requires
            old(ctx).wf(),
            old(ctx).value_has_type(lhs),
            old(ctx).value_in_range(rhs),
        ensures
            bin_op_created(*old(ctx), *final(ctx), r.op, OpKind::IAdd, lhs, rhs),
    {
        IAddOp { op: new_bin_op(ctx, OpKind::IAdd, lhs, rhs) }
    }

    /// The underlying operation.
    pub fn get_operation(&self) -> (op: usize)
        ensures
            op == self.op,
    {
        self.op
    }
}

/// `clif.isub`: integer subtraction.
pub struct ISubOp {
    pub op: usize,
}

impl ISubOp {
    /// Creates `lhs - rhs`; the result has the type of `lhs`.
    pub fn new(ctx: &mut Context, lhs: Value, rhs: Value) -> (r: ISubOp)
        requires
            old(ctx).wf(),
            old(ctx).value_has_type(lhs),
            old(ctx).value_in_range(rhs),
        ensures
            bin_op_created(*old(ctx), *final(ctx), r.op, OpKind::ISub, lhs, rhs),
    {
        ISubOp { op: new_bin_op(ctx, OpKind::ISub, lhs, rhs) }
    }

    /// The underlying operation.
    pub fn get_operation(&self) -> (op: usize)
        ensures
            op == self.op,
    {
        self.op
    }
}

/// `clif.imul`: integer multiplication.
pub struct IMulOp {
    pub op: usize,
}

impl IMulOp {
    /// Creates `lhs * rhs`; the result has the type of `lhs`.
    pub fn new(ctx: &mut Context, lhs: Value, rhs: Value) -> (r: IMulOp)
        requires
            old(ctx).wf(),
            old(ctx).value_has_type(lhs),
            old(ctx).value_in_range(rhs),
        ensures
            bin_op_created(*old(ctx), *final(ctx), r.op, OpKind::IMul, lhs, rhs),
    {
        IMulOp { op: new_bin_op(ctx, OpKind::IMul, lhs, rhs) }
    }

    /// The underlying operation.
    pub fn get_operation(&self) -> (op: usize)
        ensures
            op == self.op,
    {
        self.op
    }
}

} // verus!
