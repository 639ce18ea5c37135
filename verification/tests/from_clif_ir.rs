use cranelift_reader::parse_functions;
use pliron_clif::clif::{ClifFunction, Opcode, ValueDef};
use pliron_clif::convert::{ConversionCtx, ConvertError};
use pliron_clif::driver::{convert_cranelift_function, convert_cranelift_function_w_rpo};
use pliron_clif::ir::{Context, IntegerType, OpKind, Signedness, Value};
use pliron_clif::ops::FuncOp;

fn si32() -> IntegerType {
    IntegerType { width: 32, signedness: Signedness::Signed }
}

fn parse_one(clif_code: &str) -> cranelift_codegen::ir::Function {
    let mut functions = parse_functions(clif_code).expect("Failed to parse .clif");
    assert_eq!(functions.len(), 1);
    functions.remove(0)
}

/// Checks that `func_op` is `@name: (si32, si32) -> (si32)` whose entry block holds
/// `op = kind block_arg0, block_arg1 : si32` followed by `return (op)`.
fn assert_binary_function(ctx: &Context, func_op: &FuncOp, name: &str, kind: OpKind) {
    let func = &ctx.ops[func_op.get_operation()];
    assert_eq!(func.kind, OpKind::Func);
    let attrs = func.attrs.as_ref().unwrap();
    assert_eq!(attrs.sym_name, name);
    assert_eq!(attrs.func_type.inputs, vec![si32(), si32()]);
    assert_eq!(attrs.func_type.results, vec![si32()]);
    assert_eq!(func.regions.len(), 1);
    let region = func_op.get_region(ctx);
    assert_eq!(ctx.region_blocks[region].len(), 1);
    let entry = func_op.get_entry_block(ctx);
    assert_eq!(ctx.region_blocks[region][0], entry);
    assert_eq!(ctx.blocks[entry].label.as_deref(), Some("entry"));
    assert_eq!(ctx.blocks[entry].arg_types, vec![si32(), si32()]);
    let ops = &ctx.block_ops[entry];
    assert_eq!(ops.len(), 2);
    let bin = &ctx.ops[ops[0]];
    assert_eq!(bin.kind, kind);
    assert_eq!(
        bin.operands,
        vec![
            Value::BlockArgument { block: entry, arg_idx: 0 },
            Value::BlockArgument { block: entry, arg_idx: 1 },
        ]
    );
    assert_eq!(bin.result_types, vec![si32()]);
    let ret = &ctx.ops[ops[1]];
    assert_eq!(ret.kind, OpKind::Return);
    assert_eq!(ret.operands, vec![Value::OpResult { op: ops[0], res_idx: 0 }]);
    assert!(ret.result_types.is_empty());
}

#[test]
fn test_add_fn_convert_clif_to_pliron() {
    let clif_code = r#"
        function %add(i32, i32) -> i32 apple_aarch64 {
            block0(v0: i32, v1: i32):
                v2 = iadd v0, v1
                return v2
        }
    "#;

    let functions = parse_functions(clif_code).expect("Failed to parse .clif");

    for func in functions {
        let mut cctx = ConversionCtx::default();
        let mut ctx = Context::new();
        let func_op = match convert_cranelift_function(&mut ctx, &mut cctx, &func) {
            Ok(op) => op,
            Err(e) => panic!("Error: {:?}", e),
        };
        assert_binary_function(&ctx, &func_op, "add", OpKind::IAdd);
    }
}

#[test]
fn test_add_fn_convert_clif_to_pliron_w_rpo() {
    let clif_code = r#"
        function %add(i32, i32) -> i32 apple_aarch64 {
            block0(v0: i32, v1: i32):
                v2 = iadd v0, v1
                return v2
        }
    "#;

    let functions = parse_functions(clif_code).expect("Failed to parse .clif");

    for func in functions {
        let mut cctx = ConversionCtx::default();
        let mut ctx = Context::new();
        let func_op = match convert_cranelift_function_w_rpo(&mut ctx, &mut cctx, &func) {
            Ok(op) => op,
            Err(e) => panic!("Error: {:?}", e),
        };
        assert_binary_function(&ctx, &func_op, "add", OpKind::IAdd);
    }
}

#[test]
fn test_convert_and_print_clif_mul_to_pliron() {
    let clif_code = r#"
        function %mul(i32, i32) -> i32 apple_aarch64 { 
            block0(v0: i32, v1: i32): 
                v2 = imul v0, v1 
                return v2 
        }        
    "#;

    let functions = parse_functions(clif_code).expect("Failed to parse .clif");

    for func in functions {
        let mut store = ConversionCtx::default();
        let mut ctx = Context::new();
        let func_op = match convert_cranelift_function(&mut ctx, &mut store, &func) {
            Ok(op) => op,
            Err(e) => panic!("Error: {:?}", e),
        };
        assert_binary_function(&ctx, &func_op, "mul", OpKind::IMul);
    }
}

#[test]
fn reads_cranelift_tables() {
    let func = parse_one(
        r#"
        function %add(i32, i32) -> i32 {
            block0(v0: i32, v1: i32):
                v2 = iadd v0, v1
                return v2
        }
    "#,
    );
    let f = ClifFunction::from_cranelift(&func).unwrap();
    assert_eq!(f.name, "%add");
    assert_eq!(f.params.len(), 2);
    assert_eq!(f.params[0].name, "types::I32");
    assert_eq!(f.returns.len(), 1);
    assert_eq!(f.returns[0].name, "types::I32");
    assert_eq!(f.layout, vec![0]);
    assert_eq!(f.entry_block, Some(0));
    assert_eq!(f.rpo, vec![0]);
    assert_eq!(f.blocks[0].params, vec![0, 1]);
    assert_eq!(f.blocks[0].insts, vec![0, 1]);
    assert_eq!(f.values.len(), 3);
    assert_eq!(f.values[2].ty.name, "types::I32");
    assert_eq!(f.insts.len(), 2);
    assert_eq!(f.insts[0].opcode, Opcode::Iadd);
    assert_eq!(f.insts[0].args, vec![0, 1]);
    assert_eq!(f.insts[1].opcode, Opcode::Return);
    assert_eq!(f.insts[1].args, vec![2]);
    assert_eq!(f.values[0].def, ValueDef::Param(0, 0));
    assert_eq!(f.values[1].def, ValueDef::Param(0, 1));
    assert_eq!(f.values[2].def, ValueDef::Result(0, 0));
    assert!(f.check_wf());
}


#[test]
fn aliases_are_read_as_their_definitions() {
    let mut functions = parse_functions(
        r#"
        function %f(i32) -> i32 {
        block0(v0: i32):
            v1 = iadd v0, v0
            v2 -> v1
            return v2
        }
    "#,
    )
    .expect("Failed to parse .clif");
    let func = functions.remove(0);
    let f = ClifFunction::from_cranelift(&func).unwrap();
    assert_eq!(f.values[2].def, ValueDef::Result(0, 0));
    assert_eq!(f.values[2].ty.name, "types::I32");
    let mut ctx = Context::new();
    let mut cctx = ConversionCtx::new();
    let func_op = convert_cranelift_function(&mut ctx, &mut cctx, &func).unwrap();
    let entry = func_op.get_entry_block(&ctx);
    let ops = ctx.block_ops[entry].clone();
    assert_eq!(ctx.ops[ops[1]].operands, vec![Value::OpResult { op: ops[0], res_idx: 0 }]);
}
