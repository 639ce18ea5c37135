use cranelift_reader::parse_functions;
use pliron_clif::check::check_layout_convertible;
use pliron_clif::clif::{BlockData, ClifFunction, ClifType, InstData, Opcode, ValueData, ValueDef};
use pliron_clif::convert::{
    convert_block_w_rpo, convert_instruction, convert_operands, convert_type, ConversionCtx,
    ConvertError,
};
use pliron_clif::function::convert_function;
use pliron_clif::driver::{
    check_layout_supported, check_rpo_supported, convert_cranelift_function,
    convert_cranelift_function_w_rpo, try_convert_function,
};
use pliron_clif::ir::{Context, IntegerType, OpKind, Signedness, Value};

fn si32() -> IntegerType {
    IntegerType { width: 32, signedness: Signedness::Signed }
}

fn parse_one(clif_code: &str) -> cranelift_codegen::ir::Function {
    let mut functions = parse_functions(clif_code).expect("Failed to parse .clif");
    assert_eq!(functions.len(), 1);
    functions.remove(0)
}

fn ty(name: &str) -> ClifType {
    ClifType { name: name.to_string() }
}

/// A function model with the given tables; the entry block is the first block of the
/// layout.
fn model(
    name: &str,
    values: Vec<(ValueDef, &str)>,
    insts: Vec<(Opcode, Vec<u32>)>,
    blocks: Vec<(Vec<u32>, Vec<u32>)>,
    layout: Vec<u32>,
    rpo: Vec<u32>,
) -> ClifFunction {
    let entry_block = layout.first().copied();
    let params = match entry_block {
        Some(b) => blocks[b as usize].0.iter().map(|_| ty("types::I32")).collect(),
        None => vec![],
    };
    ClifFunction {
        name: name.to_string(),
        params,
        returns: vec![ty("types::I32")],
        values: values.into_iter().map(|(def, t)| ValueData { def, ty: ty(t) }).collect(),
        insts: insts.into_iter().map(|(opcode, args)| InstData { opcode, args }).collect(),
        blocks: blocks.into_iter().map(|(params, insts)| BlockData { params, insts }).collect(),
        layout,
        entry_block,
        rpo,
    }
}

/// `%add`: block0(v0, v1): v2 = iadd v0, v1; return v2.
fn add_model(name: &str) -> ClifFunction {
    model(
        name,
        vec![
            (ValueDef::Param(0, 0), "types::I32"),
            (ValueDef::Param(0, 1), "types::I32"),
            (ValueDef::Result(0, 0), "types::I32"),
        ],
        vec![(Opcode::Iadd, vec![0, 1]), (Opcode::Return, vec![2])],
        vec![(vec![0, 1], vec![0, 1])],
        vec![0],
        vec![0],
    )
}

#[test]
fn convert_type_maps_i32_to_signed_32_bit() {
    assert_eq!(convert_type(&ty("types::I32")), si32());
}

#[test]
fn block_label_is_cranelift_display() {
    let blocks: Vec<(Vec<u32>, Vec<u32>)> = (0..13).map(|_| (vec![], vec![])).collect();
    let f = model("%f", vec![], vec![], blocks, vec![0], vec![0]);
    let mut ctx = Context::new();
    let bb = convert_block_w_rpo(&mut ctx, &f, 12).unwrap();
    assert_eq!(ctx.blocks[bb].label.as_deref(), Some("block12"));
    assert!(ctx.blocks[bb].arg_types.is_empty());
    assert_eq!(ctx.block_parent[bb], None);
}

#[test]
fn invalid_name_is_reported_and_nothing_changes() {
    let f = add_model("%9lives");
    let mut ctx = Context::new();
    let mut cctx = ConversionCtx::new();
    match try_convert_function(&mut ctx, &mut cctx, &f) {
        Err(ConvertError::InvalidIdentifier(n)) => assert_eq!(n, "9lives"),
        other => panic!("unexpected {:?}", other.is_ok()),
    }
    assert!(ctx.ops.is_empty());
    assert!(ctx.blocks.is_empty());
    assert_eq!(cctx.entry_block(), None);
}

#[test]
fn unsupported_type_is_rejected() {
    let func = parse_one(
        r#"
        function %wide(i64) -> i64 {
        block0(v0: i64):
            return v0
        }
    "#,
    );
    let mut ctx = Context::new();
    let mut cctx = ConversionCtx::new();
    assert!(matches!(
        convert_cranelift_function(&mut ctx, &mut cctx, &func),
        Err(ConvertError::Unsupported)
    ));
    assert!(ctx.ops.is_empty());
    assert!(matches!(
        convert_cranelift_function_w_rpo(&mut ctx, &mut cctx, &func),
        Err(ConvertError::Unsupported)
    ));
}

#[test]
fn unsupported_opcode_is_rejected() {
    let func = parse_one(
        r#"
        function %sub(i32, i32) -> i32 {
        block0(v0: i32, v1: i32):
            v2 = isub v0, v1
            return v2
        }
    "#,
    );
    let mut ctx = Context::new();
    let mut cctx = ConversionCtx::new();
    assert!(matches!(
        convert_cranelift_function(&mut ctx, &mut cctx, &func),
        Err(ConvertError::Unsupported)
    ));
    assert!(ctx.ops.is_empty());
}

#[test]
fn reverse_post_order_handles_only_additions_and_returns() {
    let func = parse_one(
        r#"
        function %mul(i32, i32) -> i32 {
        block0(v0: i32, v1: i32):
            v2 = imul v0, v1
            return v2
        }
    "#,
    );
    let mut ctx = Context::new();
    let mut cctx = ConversionCtx::new();
    assert!(matches!(
        convert_cranelift_function_w_rpo(&mut ctx, &mut cctx, &func),
        Err(ConvertError::Unsupported)
    ));
    let mut cctx = ConversionCtx::new();
    assert!(convert_cranelift_function(&mut ctx, &mut cctx, &func).is_ok());
}

#[test]
fn multiple_return_values_are_rejected() {
    let func = parse_one(
        r#"
        function %pair(i32, i32) -> i32, i32 {
        block0(v0: i32, v1: i32):
            return v0, v1
        }
    "#,
    );
    let f = ClifFunction::from_cranelift(&func).unwrap();
    assert!(f.check_wf());
    assert!(!check_layout_supported(&f));
    assert!(!check_rpo_supported(&f));
}

#[test]
fn return_without_value() {
    let func = parse_one(
        r#"
        function %nothing() {
        block0:
            return
        }
    "#,
    );
    let mut ctx = Context::new();
    let mut cctx = ConversionCtx::new();
    let func_op = convert_cranelift_function(&mut ctx, &mut cctx, &func).unwrap();
    let attrs = ctx.ops[func_op.op].attrs.as_ref().unwrap();
    assert_eq!(attrs.sym_name, "nothing");
    assert!(attrs.func_type.inputs.is_empty());
    assert!(attrs.func_type.results.is_empty());
    let entry = func_op.get_entry_block(&ctx);
    let ops = &ctx.block_ops[entry];
    assert_eq!(ops.len(), 1);
    assert_eq!(ctx.ops[ops[0]].kind, OpKind::Return);
    assert!(ctx.ops[ops[0]].operands.is_empty());
}

#[test]
fn unreachable_block_is_kept_in_layout_order_and_left_out_in_reverse_post_order() {
    let clif = r#"
        function %f(i32) -> i32 {
        block0(v0: i32):
            return v0
        block1(v1: i32):
            v2 = iadd v1, v1
            return v2
        }
    "#;
    let func = parse_one(clif);
    let f = ClifFunction::from_cranelift(&func).unwrap();
    assert_eq!(f.layout, vec![0, 1]);
    assert_eq!(f.rpo, vec![0]);

    let mut ctx = Context::new();
    let mut cctx = ConversionCtx::new();
    let func_op = convert_cranelift_function(&mut ctx, &mut cctx, &func).unwrap();
    let region = func_op.get_region(&ctx);
    let body = ctx.region_blocks[region].clone();
    assert_eq!(body.len(), 2);
    assert_eq!(ctx.blocks[body[0]].label.as_deref(), Some("entry"));
    assert_eq!(ctx.blocks[body[1]].label.as_deref(), Some("block1"));
    assert_eq!(ctx.blocks[body[1]].arg_types, vec![si32()]);
    let ops1 = &ctx.block_ops[body[1]];
    assert_eq!(ops1.len(), 2);
    assert_eq!(ctx.ops[ops1[0]].kind, OpKind::IAdd);
    assert_eq!(
        ctx.ops[ops1[0]].operands,
        vec![
            Value::BlockArgument { block: body[1], arg_idx: 0 },
            Value::BlockArgument { block: body[1], arg_idx: 0 },
        ]
    );
    assert_eq!(cctx.cached_block(1), Some(body[1]));
    assert_eq!(cctx.cached_op(1), Some(ops1[0]));

    let mut ctx = Context::new();
    let mut cctx = ConversionCtx::new();
    let func_op = convert_cranelift_function_w_rpo(&mut ctx, &mut cctx, &func).unwrap();
    let region = func_op.get_region(&ctx);
    assert_eq!(ctx.region_blocks[region].len(), 1);
    assert_eq!(cctx.cached_block(1), None);
    assert_eq!(cctx.cached_op(1), None);
}

#[test]
fn definition_after_use_is_converted_on_demand() {
    let func = parse_one(
        r#"
        function %f(i32) -> i32 {
        block0(v0: i32):
            return v0
        block1(v1: i32):
            v3 = iadd.i32 v2, v1
            return v3
        block2(v4: i32):
            v2 = iadd v4, v4
            return v2
        }
    "#,
    );
    let mut ctx = Context::new();
    let mut cctx = ConversionCtx::new();
    let func_op = convert_cranelift_function(&mut ctx, &mut cctx, &func).unwrap();
    let region = func_op.get_region(&ctx);
    let body = ctx.region_blocks[region].clone();
    assert_eq!(body.len(), 3);
    // The addition of block1 uses an addition converted on demand, together with block2
    // whose parameter it adds; both were cached, and placed when the walk reached block2.
    let use_op = ctx.block_ops[body[1]][0];
    match ctx.ops[use_op].operands[0] {
        Value::OpResult { op, res_idx } => {
            assert_eq!(res_idx, 0);
            assert_eq!(ctx.ops[op].kind, OpKind::IAdd);
            assert_eq!(op, ctx.block_ops[body[2]][0]);
            assert_eq!(ctx.op_parent[op], Some(body[2]));
            assert_eq!(
                ctx.ops[op].operands,
                vec![
                    Value::BlockArgument { block: body[2], arg_idx: 0 },
                    Value::BlockArgument { block: body[2], arg_idx: 0 }
                ]
            );
        },
        _ => panic!("expected an operation result"),
    }
    assert_eq!(ctx.blocks.len(), 3);
    assert_eq!(ctx.ops.len(), 6);
    // The reverse post-order walk does not reach block1 or block2.
    let mut ctx = Context::new();
    let mut cctx = ConversionCtx::new();
    assert!(convert_cranelift_function_w_rpo(&mut ctx, &mut cctx, &func).is_ok());
}

#[test]
fn conversion_context_records_the_function() {
    let func = parse_one(
        r#"
        function %add(i32, i32) -> i32 {
            block0(v0: i32, v1: i32):
                v2 = iadd v0, v1
                return v2
        }
    "#,
    );
    let mut ctx = Context::new();
    let mut cctx = ConversionCtx::default();
    let func_op = convert_cranelift_function(&mut ctx, &mut cctx, &func).unwrap();
    let entry = func_op.get_entry_block(&ctx);
    assert_eq!(cctx.entry_block(), Some(entry));
    assert_eq!(cctx.func_op(), Some(func_op.get_operation()));
    assert_eq!(cctx.regions().clone(), vec![func_op.get_region(&ctx)]);
    assert_eq!(cctx.cached_block(0), Some(entry));
    assert_eq!(cctx.cached_op(0), Some(ctx.block_ops[entry][0]));
    assert_eq!(cctx.cached_op(1), Some(ctx.block_ops[entry][1]));
}

#[test]
fn cached_instruction_is_returned_unchanged() {
    let f = add_model("%add");
    let mut ctx = Context::new();
    let mut cctx = ConversionCtx::new();
    let func_op = convert_function(&mut ctx, &mut cctx, &f).unwrap();
    let entry = func_op.get_entry_block(&ctx);
    let n_ops = ctx.ops.len();
    let op = convert_instruction(&mut ctx, &f, &mut cctx, 0).unwrap();
    assert_eq!(op, ctx.block_ops[entry][0]);
    assert_eq!(ctx.ops.len(), n_ops);
}

#[test]
fn invalid_name_is_reported_before_unsupported_instructions() {
    let func = parse_one(
        r#"
        function %0bad(i32) -> i32 {
        block0(v0: i32):
            v1 = isub v0, v0
            return v1
        }
    "#,
    );
    let mut ctx = Context::new();
    let mut cctx = ConversionCtx::new();
    match convert_cranelift_function(&mut ctx, &mut cctx, &func) {
        Err(ConvertError::InvalidIdentifier(name)) => assert_eq!(name, "0bad"),
        _ => panic!("expected an invalid identifier"),
    }
    let mut ctx = Context::new();
    let mut cctx = ConversionCtx::new();
    assert!(matches!(
        convert_cranelift_function_w_rpo(&mut ctx, &mut cctx, &func),
        Err(ConvertError::InvalidIdentifier(_))
    ));
    // A signature type other than i32 is refused before the name is read.
    let func = parse_one(
        r#"
        function %0bad(i64) -> i32 {
        block0(v0: i64):
            v1 = iconst.i32 0
            return v1
        }
    "#,
    );
    let mut ctx = Context::new();
    let mut cctx = ConversionCtx::new();
    assert!(matches!(
        convert_cranelift_function(&mut ctx, &mut cctx, &func),
        Err(ConvertError::Unsupported)
    ));
}

#[test]
fn invalid_name_fails_before_the_body_is_read() {
    // The body holds an instruction the conversion does not handle; the name fails first.
    let f = model(
        "%0f",
        vec![(ValueDef::Param(0, 0), "types::I32")],
        vec![(Opcode::Other, vec![0])],
        vec![(vec![0], vec![0])],
        vec![0],
        vec![0],
    );
    let mut ctx = Context::new();
    let mut cctx = ConversionCtx::new();
    match convert_function(&mut ctx, &mut cctx, &f) {
        Err(ConvertError::InvalidIdentifier(name)) => assert_eq!(name, "0f"),
        _ => panic!("expected an invalid identifier"),
    }
    assert!(ctx.ops.is_empty() && ctx.blocks.is_empty());
    assert_eq!(cctx.func_op(), None);
}

#[test]
fn every_operation_and_block_is_converted_once() {
    let func = parse_one(
        r#"
        function %f(i32) -> i32 {
        block0(v0: i32):
            return v0
        block1(v1: i32):
            v3 = iadd.i32 v2, v1
            v5 = iadd.i32 v2, v3
            return v5
        block2(v4: i32):
            v2 = iadd v4, v4
            return v2
        }
    "#,
    );
    let mut ctx = Context::new();
    let mut cctx = ConversionCtx::new();
    let func_op = convert_cranelift_function(&mut ctx, &mut cctx, &func).unwrap();
    // One operation per instruction and the function, one block per block: nothing twice.
    assert_eq!(ctx.ops.len(), 7);
    assert_eq!(ctx.blocks.len(), 3);
    for o in 0..ctx.ops.len() {
        if o != func_op.op {
            assert!(ctx.op_parent[o].is_some());
        }
    }
    let body = ctx.region_blocks[func_op.get_region(&ctx)].clone();
    let v2_op = ctx.block_ops[body[2]][0];
    let b1 = ctx.block_ops[body[1]].clone();
    assert_eq!(ctx.ops[b1[0]].operands[0], Value::OpResult { op: v2_op, res_idx: 0 });
    assert_eq!(ctx.ops[b1[1]].operands[0], Value::OpResult { op: v2_op, res_idx: 0 });
    assert_eq!(ctx.ops[b1[1]].operands[1], Value::OpResult { op: b1[0], res_idx: 0 });
}

#[test]
fn cached_operands_are_given_without_change() {
    let f = add_model("%add");
    let mut ctx = Context::new();
    let mut cctx = ConversionCtx::new();
    let func_op = convert_function(&mut ctx, &mut cctx, &f).unwrap();
    let entry = func_op.get_entry_block(&ctx);
    let n_ops = ctx.ops.len();
    let n_blocks = ctx.blocks.len();
    let vs = convert_operands(&mut ctx, &f, &mut cctx, &[2, 1, 0]).unwrap();
    assert_eq!(
        vs,
        vec![
            Value::OpResult { op: ctx.block_ops[entry][0], res_idx: 0 },
            Value::BlockArgument { block: entry, arg_idx: 1 },
            Value::BlockArgument { block: entry, arg_idx: 0 },
        ]
    );
    assert_eq!(ctx.ops.len(), n_ops);
    assert_eq!(ctx.blocks.len(), n_blocks);
}

#[test]
fn instruction_on_cached_arguments_creates_one_operation() {
    // Instruction 2 multiplies v2 by v0 and sits in no block.
    let f = model(
        "%f",
        vec![
            (ValueDef::Param(0, 0), "types::I32"),
            (ValueDef::Param(0, 1), "types::I32"),
            (ValueDef::Result(0, 0), "types::I32"),
            (ValueDef::Result(2, 0), "types::I32"),
        ],
        vec![(Opcode::Iadd, vec![0, 1]), (Opcode::Return, vec![2]), (Opcode::Imul, vec![2, 0])],
        vec![(vec![0, 1], vec![0, 1])],
        vec![0],
        vec![0],
    );
    let mut ctx = Context::new();
    let mut cctx = ConversionCtx::new();
    let func_op = convert_function(&mut ctx, &mut cctx, &f).unwrap();
    let entry = func_op.get_entry_block(&ctx);
    let n_ops = ctx.ops.len();
    let op = convert_instruction(&mut ctx, &f, &mut cctx, 2).unwrap();
    assert_eq!(op, n_ops);
    assert_eq!(ctx.ops.len(), n_ops + 1);
    assert_eq!(ctx.ops[op].kind, OpKind::IMul);
    assert_eq!(
        ctx.ops[op].operands,
        vec![
            Value::OpResult { op: ctx.block_ops[entry][0], res_idx: 0 },
            Value::BlockArgument { block: entry, arg_idx: 0 },
        ]
    );
    assert_eq!(ctx.ops[op].result_types, vec![si32()]);
    assert_eq!(ctx.op_parent[op], None);
    assert_eq!(cctx.cached_op(2), Some(op));
    // A second conversion gives the same operation and builds nothing.
    assert_eq!(convert_instruction(&mut ctx, &f, &mut cctx, 2).unwrap(), op);
    assert_eq!(ctx.ops.len(), n_ops + 1);
}

#[test]
fn placeholder_values_are_read_as_unions() {
    let func = parse_one(
        r#"
        function %gap(i32) -> i32 {
        block0(v0: i32):
            v5 = iadd v0, v0
            return v5
        }
    "#,
    );
    let f = ClifFunction::from_cranelift(&func).unwrap();
    assert_eq!(f.values.len(), 6);
    assert_eq!(f.values[3].def, ValueDef::Union(3, 3));
    assert_eq!(f.values[5].def, ValueDef::Result(0, 0));
    let mut ctx = Context::new();
    let mut cctx = ConversionCtx::new();
    assert!(convert_cranelift_function(&mut ctx, &mut cctx, &func).is_ok());
}

#[test]
fn cyclic_definitions_cannot_be_converted_on_demand() {
    // inst0: v1 = iadd v2, v0 ; inst1: v2 = iadd v1, v0 ; inst2: return v1
    let f = model(
        "%cycle",
        vec![
            (ValueDef::Param(0, 0), "types::I32"),
            (ValueDef::Result(0, 0), "types::I32"),
            (ValueDef::Result(1, 0), "types::I32"),
        ],
        vec![
            (Opcode::Iadd, vec![2, 0]),
            (Opcode::Iadd, vec![1, 0]),
            (Opcode::Return, vec![1]),
        ],
        vec![(vec![0], vec![0, 2])],
        vec![0],
        vec![0],
    );
    assert!(f.check_wf());
    assert!(!check_layout_convertible(&f));
    assert!(!check_layout_supported(&f));
    let mut ctx = Context::new();
    let mut cctx = ConversionCtx::new();
    assert!(matches!(try_convert_function(&mut ctx, &mut cctx, &f), Err(ConvertError::Unsupported)));
    assert!(ctx.ops.is_empty());
}

#[test]
fn repeated_block_in_layout_is_rejected() {
    let mut f = add_model("%add");
    assert!(check_layout_supported(&f));
    f.layout = vec![0, 0];
    assert!(!check_layout_supported(&f));
}

#[test]
fn reverse_post_order_places_everything_it_creates() {
    let func = parse_one(
        r#"
        function %f(i32, i32) -> i32 {
        block0(v0: i32, v1: i32):
            v2 = iadd v0, v1
            v3 = iadd v2, v2
            return v3
        }
    "#,
    );
    let mut ctx = Context::new();
    let mut cctx = ConversionCtx::new();
    let func_op = convert_cranelift_function_w_rpo(&mut ctx, &mut cctx, &func).unwrap();
    for o in 0..ctx.ops.len() {
        if o != func_op.op {
            assert!(ctx.op_parent[o].is_some());
        }
    }
    for b in 0..ctx.blocks.len() {
        assert!(ctx.block_parent[b].is_some());
    }
    let entry = func_op.get_entry_block(&ctx);
    let ops = ctx.block_ops[entry].clone();
    assert_eq!(ops.len(), 3);
    assert_eq!(
        ctx.ops[ops[1]].operands,
        vec![Value::OpResult { op: ops[0], res_idx: 0 }, Value::OpResult { op: ops[0], res_idx: 0 }]
    );
}

#[test]
fn layout_order_places_everything_when_definitions_come_first() {
    let func = parse_one(
        r#"
        function %g(i32, i32) -> i32 {
        block0(v0: i32, v1: i32):
            v2 = iadd v0, v1
            v3 = imul v2, v1
            v4 = iadd v3, v2
            return v4
        }
    "#,
    );
    let mut ctx = Context::new();
    let mut cctx = ConversionCtx::new();
    let func_op = convert_cranelift_function(&mut ctx, &mut cctx, &func).unwrap();
    for o in 0..ctx.ops.len() {
        if o != func_op.op {
            assert!(ctx.op_parent[o].is_some());
        }
    }
    for b in 0..ctx.blocks.len() {
        assert!(ctx.block_parent[b].is_some());
    }
    let entry = func_op.get_entry_block(&ctx);
    let ops = ctx.block_ops[entry].clone();
    assert_eq!(ops.len(), 4);
    assert_eq!(ctx.ops.len(), 5);
    assert_eq!(
        ctx.ops[ops[2]].operands,
        vec![Value::OpResult { op: ops[1], res_idx: 0 }, Value::OpResult { op: ops[0], res_idx: 0 }]
    );
}

#[test]
fn reverse_post_order_follows_the_control_flow() {
    let func = parse_one(
        r#"
        function %f(i32) -> i32 {
        block0(v0: i32):
            jump block2(v0)
        block1(v1: i32):
            return v1
        block2(v2: i32):
            jump block1(v2)
        }
    "#,
    );
    let f = ClifFunction::from_cranelift(&func).unwrap();
    assert_eq!(f.layout, vec![0, 1, 2]);
    assert_eq!(f.rpo, vec![0, 2, 1]);
    assert_eq!(f.insts[0].opcode, Opcode::Other);
    assert!(f.check_wf());
    // Jumps are not converted.
    let mut ctx = Context::new();
    let mut cctx = ConversionCtx::new();
    assert!(matches!(
        convert_cranelift_function_w_rpo(&mut ctx, &mut cctx, &func),
        Err(ConvertError::Unsupported)
    ));
}

#[test]
fn use_before_definition_in_a_block() {
    // block0(v0): v1 = iadd v2, v0 ; v2 = iadd v0, v0 ; return v1
    let f = model(
        "%f",
        vec![
            (ValueDef::Param(0, 0), "types::I32"),
            (ValueDef::Result(0, 0), "types::I32"),
            (ValueDef::Result(1, 0), "types::I32"),
        ],
        vec![
            (Opcode::Iadd, vec![2, 0]),
            (Opcode::Iadd, vec![0, 0]),
            (Opcode::Return, vec![1]),
        ],
        vec![(vec![0], vec![0, 1, 2])],
        vec![0],
        vec![0],
    );
    assert!(check_layout_supported(&f));
    assert!(!check_rpo_supported(&f));
    let mut ctx = Context::new();
    let mut cctx = ConversionCtx::new();
    let func_op = try_convert_function(&mut ctx, &mut cctx, &f).unwrap();
    let entry = func_op.get_entry_block(&ctx);
    let placed = ctx.block_ops[entry].clone();
    assert_eq!(placed.len(), 3);
    // The second addition was converted on demand and cached, then placed: it is
    // converted once.
    assert_eq!(ctx.ops.len(), 4);
    match ctx.ops[placed[0]].operands[0] {
        Value::OpResult { op, .. } => {
            assert_eq!(op, placed[1]);
            assert_eq!(ctx.op_parent[op], Some(entry));
        },
        _ => panic!("expected an operation result"),
    }
    assert_eq!(cctx.cached_op(1), Some(placed[1]));
    // Every definition lies in the layout: everything created is placed, and exactly the
    // layout's instructions are cached.
    for o in 0..ctx.ops.len() {
        if o != func_op.op {
            assert!(ctx.op_parent[o].is_some());
        }
    }
    assert_eq!(cctx.cached_op(0), Some(placed[0]));
    assert_eq!(cctx.cached_op(2), Some(placed[2]));
    assert_eq!(cctx.cached_op(3), None);
    let mut ctx = Context::new();
    let mut cctx = ConversionCtx::new();
    assert!(matches!(
        pliron_clif::driver::try_convert_function_w_rpo(&mut ctx, &mut cctx, &f),
        Err(ConvertError::Unsupported)
    ));
}
