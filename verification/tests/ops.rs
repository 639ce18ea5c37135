use pliron_clif::ir::{Context, FunctionType, IntegerType, OpKind, Signedness, Value};
use pliron_clif::ops::{FuncOp, IAddOp, IMulOp, ISubOp, ReturnOp};

fn int_type(width: u32, signedness: Signedness) -> IntegerType {
    IntegerType { width, signedness }
}

#[test]
fn return_gives_back_the_value_it_was_created_with() {
    let mut ctx = Context::new();
    let b = ctx.create_block(None, vec![int_type(32, Signedness::Signed)]);
    let v = Value::BlockArgument { block: b, arg_idx: 0 };
    let r = ReturnOp::new(&mut ctx, Some(v));
    assert_eq!(r.retval(&ctx), Some(v));
    assert_eq!(ctx.ops[r.get_operation()].kind, OpKind::Return);
    assert!(ctx.ops[r.get_operation()].result_types.is_empty());
    let none = ReturnOp::new(&mut ctx, None);
    assert_eq!(none.retval(&ctx), None);
    assert!(ctx.ops[none.op].operands.is_empty());
    // Later growth of the context leaves the returned value as it was.
    let _ = ReturnOp::new(&mut ctx, None);
    assert_eq!(r.retval(&ctx), Some(v));
}

#[test]
fn binary_operations_take_the_type_of_their_left_operand() {
    let mut ctx = Context::new();
    let b = ctx.create_block(None, vec![int_type(64, Signedness::Unsigned), int_type(8, Signedness::Signless)]);
    let lhs = Value::BlockArgument { block: b, arg_idx: 0 };
    let rhs = Value::BlockArgument { block: b, arg_idx: 1 };
    let add = IAddOp::new(&mut ctx, lhs, rhs);
    let sub = ISubOp::new(&mut ctx, lhs, rhs);
    let mul = IMulOp::new(&mut ctx, rhs, lhs);
    assert_eq!(ctx.ops[add.get_operation()].kind, OpKind::IAdd);
    assert_eq!(ctx.ops[sub.get_operation()].kind, OpKind::ISub);
    assert_eq!(ctx.ops[mul.get_operation()].kind, OpKind::IMul);
    assert_eq!(ctx.ops[add.op].operands, vec![lhs, rhs]);
    assert_eq!(ctx.ops[add.op].result_types, vec![int_type(64, Signedness::Unsigned)]);
    assert_eq!(ctx.ops[mul.op].result_types, vec![int_type(8, Signedness::Signless)]);
    let chained = IAddOp::new(&mut ctx, Value::OpResult { op: mul.op, res_idx: 0 }, lhs);
    assert_eq!(ctx.value_type(Value::OpResult { op: chained.op, res_idx: 0 }), int_type(8, Signedness::Signless));
}

#[test]
fn function_has_an_entry_block_with_its_inputs() {
    let mut ctx = Context::new();
    let i32t = int_type(32, Signedness::Signed);
    let ty = FunctionType { inputs: vec![i32t, i32t], results: vec![i32t] };
    let f = FuncOp::new(&mut ctx, "add".to_string(), ty);
    let op = &ctx.ops[f.get_operation()];
    assert_eq!(op.kind, OpKind::Func);
    assert_eq!(op.attrs.as_ref().unwrap().sym_name, "add");
    let region = f.get_region(&ctx);
    assert_eq!(ctx.regions[region].parent_op, f.op);
    let entry = f.get_entry_block(&ctx);
    assert_eq!(ctx.region_blocks[region], vec![entry]);
    assert_eq!(ctx.blocks[entry].label.as_deref(), Some("entry"));
    assert_eq!(ctx.blocks[entry].arg_types, vec![i32t, i32t]);
    assert_eq!(ctx.block_parent[entry], Some(region));
}

#[test]
fn operations_and_blocks_are_placed_where_asked() {
    let mut ctx = Context::new();
    let a = ReturnOp::new(&mut ctx, None).op;
    let b = ReturnOp::new(&mut ctx, None).op;
    let c = ReturnOp::new(&mut ctx, None).op;
    let blk = ctx.create_block(Some("b".to_string()), vec![]);
    ctx.insert_op_at_front(b, blk);
    ctx.insert_op_at_front(a, blk);
    ctx.insert_op_after(c, a);
    assert_eq!(ctx.block_ops[blk], vec![a, c, b]);
    assert_eq!(ctx.op_parent[c], Some(blk));

    let f = FuncOp::new(&mut ctx, "f".to_string(), FunctionType { inputs: vec![], results: vec![] });
    let region = f.get_region(&ctx);
    let entry = f.get_entry_block(&ctx);
    let x = ctx.create_block(None, vec![]);
    let y = ctx.create_block(None, vec![]);
    ctx.insert_block_after(y, entry);
    ctx.insert_block_after(x, entry);
    assert_eq!(ctx.region_blocks[region], vec![entry, x, y]);
    assert_eq!(ctx.block_parent[x], Some(region));
}
