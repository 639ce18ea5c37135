//! Placing converted blocks and operations, and converting whole functions.
//!
//! Two strategies are offered.  [`convert_function`] walks the blocks in layout order
//! and converts, and caches, the definition of an operand on demand when it has not
//! been converted yet; [`convert_function_w_rpo`] walks the blocks in reverse post-order, where every
//! definition is converted before its uses.  Both share the walk of
//! [`convert_and_link`], which places each converted block after the previous one and
//! each converted operation after the previous one in its block, and caches them.
use crate::clif::{ClifFunction, ValueDef};
use crate::convert::{
    arg_cached, arg_ok, block_created, block_created_in, closure_ok, convert_block,
    convert_block_w_rpo, convert_instruction_rec, lemma_closure_mono, convert_instruction_w_rpo, convert_type,
    convertible, corresponds, faithful_block, faithful_op, grew_unplaced, inst_ok, inst_ok_rpo,
    lemma_record_block, lemma_src_faithful_grow, si32s, src_faithful, ConversionCtx, ConvertError,
    cached_operands, lemma_cached_from_refl, lemma_cached_from_trans, lemma_operands_cached_grow,
    lemma_operands_cached_new_op, operands_cached, all_recorded, arg_block_of, lemma_all_recorded_trans,
};
use crate::ir::{Context, IntegerType, OpKind, Value};
use crate::names::{identifier_try_new, is_identifier};
use crate::ops::FuncOp;
use vstd::map_lib::lemma_submap_of_trans;
use vstd::prelude::*;

verus! {

/// Extension of contexts is transitive.
proof fn lemma_extends_trans(a: Context, b: Context, c: Context)
    requires
        b.extends(&a),
        c.extends(&b),
    ensures
        c.extends(&a),
{
    assert forall|o: int| 0 <= o < a.ops@.len() implies #[trigger] c.ops@[o] == a.ops@[o] by {
        assert(c.ops@[o] == b.ops@[o]);
    }
    assert forall|bb: int| 0 <= bb < a.blocks@.len() implies #[trigger] c.blocks@[bb] == a.blocks@[bb] by {
        assert(c.blocks@[bb] == b.blocks@[bb]);
    }
    assert forall|r: int| 0 <= r < a.regions@.len() implies #[trigger] c.regions@[r] == a.regions@[r] by {
        assert(c.regions@[r] == b.regions@[r]);
    }
}


/// The operations cached for the first `n` instructions of `insts`.
pub open spec fn cached_ops_of(m: Map<u32, usize>, insts: Seq<u32>, n: nat) -> Seq<usize> {
    Seq::new(n, |j: int| m[insts[j]])
}

/// Every instruction of block `block` can be converted once the instructions of `ci`, the
/// instructions of `block` before it, and the blocks of `cb` are cached.
pub open spec fn block_ready(f: &ClifFunction, block: u32, ci: Set<u32>, cb: Set<u32>) -> bool {
    forall|j: int|
        0 <= j < f.insts_of(block).len() ==> {
            &&& inst_ok_rpo(f, #[trigger] f.insts_of(block)[j])
            &&& forall|m: int|
                0 <= m < f.args_of(f.insts_of(block)[j]).len() ==> arg_cached(
                    f,
                    ci.union(f.insts_of(block).subrange(0, j).to_set()),
                    cb,
                    #[trigger] f.args_of(f.insts_of(block)[j])[m],
                )
        }
}

/// Converts the instructions of block `block`, in order, places their operations in the
/// empty IR block `bb`, and caches them.  Instructions are converted as
/// [`crate::convert::convert_instruction`] does, which gives the operation converted on
/// demand earlier for an instruction that is already cached, or, with `rpo`, as
/// [`convert_instruction_w_rpo`] does.  The instructions of `todo`, which holds those of
/// `block`, are not placed yet.
#[verifier::spinoff_prover]
#[verifier::rlimit(30)]
fn link_block_insts(
    ctx: &mut Context,
    f: &ClifFunction,
    cctx: &mut ConversionCtx,
    block: u32,
    bb: usize,
    rpo: bool,
    Ghost(s): Ghost<Set<u32>>,
    Ghost(rank): Ghost<Map<u32, nat>>,
    Ghost(ready): Ghost<bool>,
    Ghost(todo): Ghost<Set<u32>>,
)
    requires
        old(ctx).wf(),
        f.wf(),
        old(cctx).inv(old(ctx), f),
        block < f.blocks@.len(),
        bb < old(ctx).blocks@.len(),
        old(ctx).ops_of(bb as int).len() == 0,
        !rpo ==> closure_ok(f, s, rank, old(cctx).cached_insts(), old(cctx).cached_blocks()),
        f.insts_of(block).no_duplicates(),
        forall|j: int|
            0 <= j < f.insts_of(block).len() ==> (!rpo ==> s.contains(#[trigger] f.insts_of(block)[j]))
                && todo.contains(f.insts_of(block)[j]),
        forall|i: u32|
            #[trigger] todo.contains(i) && old(cctx).ops_map().contains_key(i) ==> old(ctx).op_parent@[old(
                cctx,
            ).ops_map()[i] as int] is None,
        rpo ==> ready,
        ready ==> block_ready(f, block, old(cctx).cached_insts(), old(cctx).cached_blocks()),
        ready ==> forall|i: u32| #[trigger] todo.contains(i) ==> !old(cctx).cached_insts().contains(i),
    ensures
        final(ctx).wf(),
        final(ctx).extends(old(ctx)),
        final(cctx).inv(final(ctx), f),
        final(cctx).cached_from(old(cctx), old(ctx).ops@.len() as nat, old(ctx).blocks@.len() as nat),
        operands_cached(final(ctx), f, old(cctx), final(cctx)),
        all_recorded(old(ctx), final(ctx), final(cctx)),
        !rpo ==> forall|i: u32|
            #[trigger] final(cctx).ops_map().contains_key(i) && !old(cctx).ops_map().contains_key(i) ==> s.contains(i),
        !rpo ==> forall|b: u32|
            #[trigger] final(cctx).bbs_map().contains_key(b) && !old(cctx).bbs_map().contains_key(b) ==> arg_block_of(f, s, b),
        final(ctx).ops_of(bb as int) == cached_ops_of(
            final(cctx).ops_map(),
            f.insts_of(block),
            f.insts_of(block).len(),
        ),
        forall|j: int| 0 <= j < f.insts_of(block).len() ==> final(cctx).ops_map().contains_key(#[trigger] f.insts_of(block)[j]),
        forall|i: u32|
            #[trigger] todo.contains(i) && !f.insts_of(block).contains(i) && final(cctx).ops_map().contains_key(i)
                ==> final(ctx).op_parent@[final(cctx).ops_map()[i] as int] is None,
        ready ==> final(cctx).cached_insts() == old(cctx).cached_insts().union(f.insts_of(block).to_set()),
        ready ==> final(cctx).bbs_map() == old(cctx).bbs_map(),
        forall|o: int|
            0 <= o < old(ctx).ops@.len() && (#[trigger] old(ctx).op_parent@[o]) is Some ==> final(ctx).op_parent@[o]
                == old(ctx).op_parent@[o],
        forall|o: int|
            0 <= o < final(ctx).ops@.len() && (#[trigger] final(ctx).op_parent@[o]) is Some && (o >= old(ctx).ops@.len()
                || old(ctx).op_parent@[o] is None) ==> final(ctx).op_parent@[o] == Some(bb),
        forall|b: int|
            0 <= b < old(ctx).blocks@.len() && b != bb ==> #[trigger] final(ctx).block_ops@[b] == old(ctx).block_ops@[b],
        forall|b: int| 0 <= b < old(ctx).blocks@.len() ==> #[trigger] final(ctx).block_parent@[b] == old(ctx).block_parent@[b],
        forall|b: int|
            old(ctx).blocks@.len() <= b < final(ctx).blocks@.len() ==> (#[trigger] final(ctx).block_ops@[b])@.len()
                == 0 && final(ctx).block_parent@[b] is None,
        final(ctx).regions@ == old(ctx).regions@,
        final(ctx).region_blocks@ == old(ctx).region_blocks@,
        ready ==> final(ctx).blocks@.len() == old(ctx).blocks@.len(),
        ready ==> forall|o: int|
            old(ctx).ops@.len() <= o < final(ctx).ops@.len() ==> (#[trigger] final(ctx).op_parent@[o]) is Some,
{
    let insts = &f.blocks[block as usize].insts;
    let mut prev_inst: Option<u32> = None;
    let mut j: usize = 0;
    proof {
        lemma_cached_from_refl(cctx, old(ctx).ops@.len() as nat, old(ctx).blocks@.len() as nat);
        assert(insts@.subrange(0, 0).to_set() =~= Set::<u32>::empty());
        assert(cctx.ops_map().dom() =~= old(cctx).ops_map().dom().union(Set::<u32>::empty()));
    }
    while j < insts.len()
        invariant
            f.wf(),
            old(ctx).wf(),
            old(cctx).inv(old(ctx), f),
            block < f.blocks@.len(),
            insts@ == f.insts_of(block),
            bb < old(ctx).blocks@.len(),
            old(ctx).ops_of(bb as int).len() == 0,
            f.insts_of(block).no_duplicates(),
            forall|jj: int|
                0 <= jj < f.insts_of(block).len() ==> (!rpo ==> s.contains(#[trigger] f.insts_of(block)[jj]))
                    && todo.contains(f.insts_of(block)[jj]),
            !rpo ==> closure_ok(f, s, rank, cctx.cached_insts(), cctx.cached_blocks()),
            rpo ==> ready,
            ready ==> block_ready(f, block, old(cctx).cached_insts(), old(cctx).cached_blocks()),
            ready ==> forall|i: u32| #[trigger] todo.contains(i) ==> !old(cctx).cached_insts().contains(i),
            j <= insts@.len(),
            ctx.wf(),
            ctx.extends(old(ctx)),
            cctx.inv(ctx, f),
            cctx.cached_from(old(cctx), old(ctx).ops@.len() as nat, old(ctx).blocks@.len() as nat),
            operands_cached(ctx, f, old(cctx), cctx),
            all_recorded(old(ctx), ctx, cctx),
            !rpo ==> forall|i: u32|
                #[trigger] cctx.ops_map().contains_key(i) && !old(cctx).ops_map().contains_key(i) ==> s.contains(i),
            !rpo ==> forall|b: u32|
                #[trigger] cctx.bbs_map().contains_key(b) && !old(cctx).bbs_map().contains_key(b) ==> arg_block_of(f, s, b),
            ctx.ops_of(bb as int) == cached_ops_of(cctx.ops_map(), insts@, j as nat),
            forall|jj: int| 0 <= jj < j ==> cctx.ops_map().contains_key(#[trigger] insts@[jj]),
            forall|i: u32|
                #[trigger] todo.contains(i) && !insts@.subrange(0, j as int).contains(i) && cctx.ops_map().contains_key(i)
                    ==> ctx.op_parent@[cctx.ops_map()[i] as int] is None,
            ready ==> cctx.ops_map().dom() == old(cctx).ops_map().dom().union(insts@.subrange(0, j as int).to_set()),
            ready ==> cctx.bbs_map() == old(cctx).bbs_map(),
            forall|o: int|
                0 <= o < old(ctx).ops@.len() && (#[trigger] old(ctx).op_parent@[o]) is Some ==> ctx.op_parent@[o]
                    == old(ctx).op_parent@[o],
            forall|o: int|
                0 <= o < ctx.ops@.len() && (#[trigger] ctx.op_parent@[o]) is Some && (o >= old(ctx).ops@.len()
                    || old(ctx).op_parent@[o] is None) ==> ctx.op_parent@[o] == Some(bb),
            forall|b: int|
                0 <= b < old(ctx).blocks@.len() && b != bb ==> #[trigger] ctx.block_ops@[b] == old(ctx).block_ops@[b],
            forall|b: int| 0 <= b < old(ctx).blocks@.len() ==> #[trigger] ctx.block_parent@[b] == old(ctx).block_parent@[b],
            forall|b: int|
                old(ctx).blocks@.len() <= b < ctx.blocks@.len() ==> (#[trigger] ctx.block_ops@[b])@.len() == 0
                    && ctx.block_parent@[b] is None,
            ctx.regions@ == old(ctx).regions@,
            ctx.region_blocks@ == old(ctx).region_blocks@,
            ready ==> ctx.blocks@.len() == old(ctx).blocks@.len(),
            ready ==> forall|o: int|
                old(ctx).ops@.len() <= o < ctx.ops@.len() ==> (#[trigger] ctx.op_parent@[o]) is Some,
            j > 0 ==> prev_inst == Some(insts@[j - 1]),
        decreases insts@.len() - j,
    {
        let inst = insts[j];
        assert(f.insts_of(block)[j as int] == inst);
        assert(todo.contains(inst));
        assert(!insts@.subrange(0, j as int).contains(inst)) by {
            if insts@.subrange(0, j as int).contains(inst) {
                let w = choose|w: int| 0 <= w < j && insts@.subrange(0, j as int)[w] == inst;
                assert(insts@[w] == inst);
            }
        }
        let ghost before_ctx = *ctx;
        let ghost before_cctx = *cctx;
        proof {
            if ready {
                assert(!old(cctx).cached_insts().contains(inst));
                assert(!cctx.ops_map().dom().contains(inst));
                assert(insts@.subrange(0, j as int) == f.insts_of(block).subrange(0, j as int));
                assert(inst_ok_rpo(f, f.insts_of(block)[j as int]));
                assert forall|m: int| 0 <= m < f.args_of(inst).len() implies arg_cached(
                    f,
                    cctx.cached_insts(),
                    cctx.cached_blocks(),
                    #[trigger] f.args_of(inst)[m],
                ) by {
                    assert(arg_cached(
                        f,
                        old(cctx).cached_insts().union(f.insts_of(block).subrange(0, j as int).to_set()),
                        old(cctx).cached_blocks(),
                        f.args_of(f.insts_of(block)[j as int])[m],
                    ));
                    assert(cctx.cached_insts() =~= old(cctx).cached_insts().union(f.insts_of(block).subrange(0, j as int).to_set()));
                }
            }
        }
        let op = if rpo {
            proof {
                assert(!old(cctx).cached_insts().contains(inst));
                assert(!insts@.subrange(0, j as int).to_set().contains(inst));
                assert(!cctx.ops_map().dom().contains(inst));
            }
            let op = convert_instruction_w_rpo(ctx, f, cctx, inst).unwrap();
            let ghost w_cctx = *cctx;
            proof {
                lemma_operands_cached_new_op(&before_ctx, ctx, f, old(cctx), &before_cctx, cctx, op, inst);
            }
            cctx.cache_op(inst, op);
            proof {
                assert(w_cctx.ops_map().submap_of(cctx.ops_map()));
                assert(w_cctx.bbs_map().submap_of(cctx.bbs_map()));
                assert(w_cctx.op_src().submap_of(cctx.op_src()));
                lemma_operands_cached_grow(ctx, ctx, f, old(cctx), &w_cctx, cctx);
                lemma_cache_new_op(&before_ctx, ctx, f, &before_cctx, &w_cctx, cctx, op, inst);
            }
            op
        } else {
            let op = convert_instruction_rec(ctx, f, cctx, inst, Ghost(s), Ghost(rank)).unwrap();
            proof {
                lemma_operands_cached_trans(&before_ctx, ctx, f, old(cctx), &before_cctx, cctx);
            }
            op
        };
        let ghost mid_ctx = *ctx;
        let ghost mid_cctx = *cctx;
        proof {
            lemma_cached_from_trans(
                old(cctx),
                &before_cctx,
                cctx,
                old(ctx).ops@.len() as nat,
                old(ctx).blocks@.len() as nat,
                before_ctx.ops@.len() as nat,
                before_ctx.blocks@.len() as nat,
            );
            assert(cctx.ops_map().contains_key(inst) && cctx.ops_map()[inst] == op);
            // the operation is not placed yet
            if before_cctx.ops_map().contains_key(inst) {
                assert(*ctx == before_ctx);
            } else {
                assert(op >= before_ctx.ops@.len());
            }
            assert(!ctx.op_linked(op as int));
        }
        if j == 0 {
            ctx.insert_op_at_front(op, bb);
            prev_inst = Some(inst);
        } else {
            match prev_inst {
                Some(prev_ins) => {
                    proof {
                        assert(insts@[j - 1] == prev_ins);
                    }
                    let prev_op = cctx.cached_op(prev_ins).unwrap();
                    proof {
                        let l = before_ctx.ops_of(bb as int);
                        assert(l.len() == j);
                        assert(l[j - 1] == before_cctx.ops_map()[prev_ins]);
                        assert(before_cctx.ops_map().contains_key(prev_ins));
                        assert(prev_op == before_cctx.ops_map()[prev_ins]);
                        assert(before_ctx.op_parent@[prev_op as int] == Some(bb));
                        assert(mid_ctx.op_parent@[prev_op as int] == Some(bb)) by {
                            assert(prev_op < before_ctx.ops@.len());
                            assert(mid_ctx.op_parent@[prev_op as int] == before_ctx.op_parent@[prev_op as int]);
                        }
                        assert(mid_ctx.ops_of(bb as int) == l);
                    }
                    ctx.insert_op_after(op, prev_op);
                    proof {
                        let l = mid_ctx.ops_of(bb as int);
                        assert(l.index_of(prev_op) == j - 1) by {
                            let w = l.index_of(prev_op);
                            assert(l.no_duplicates());
                            assert(l[w] == prev_op);
                        }
                    }
                    prev_inst = Some(inst);
                },
                None => {
                    proof {
                        assert(false);
                    }
                },
            }
        }
        cctx.cache_op(inst, op);
        proof {
            assert(cctx.ops_map() =~= mid_cctx.ops_map());
            assert(ctx.ops@ == mid_ctx.ops@ && ctx.blocks@ == mid_ctx.blocks@ && ctx.regions@ == mid_ctx.regions@);
            if rpo {
                assert(all_recorded(&before_ctx, &mid_ctx, &mid_cctx)) by {
                    assert forall|o: usize| before_ctx.ops@.len() <= o < mid_ctx.ops@.len() implies #[trigger] mid_cctx.op_src().contains_key(o) by {
                        assert(o == op);
                    }
                }
            }
            assert(before_cctx.op_src().submap_of(mid_cctx.op_src()));
            assert(before_cctx.block_src().submap_of(mid_cctx.block_src()));
            lemma_all_recorded_trans(old(ctx), &before_ctx, &mid_ctx, &before_cctx, &mid_cctx);
            assert(all_recorded(old(ctx), ctx, cctx));
            if !rpo {
                assert forall|i: u32|
                    #[trigger] cctx.ops_map().contains_key(i) && !old(cctx).ops_map().contains_key(i) implies s.contains(i) by {
                    if !before_cctx.ops_map().contains_key(i) {
                        assert(mid_cctx.ops_map().contains_key(i));
                    }
                }
                assert forall|b: u32|
                    #[trigger] cctx.bbs_map().contains_key(b) && !old(cctx).bbs_map().contains_key(b) implies arg_block_of(f, s, b) by {
                    if !before_cctx.bbs_map().contains_key(b) {
                        assert(mid_cctx.bbs_map().contains_key(b));
                    }
                }
            }
            lemma_extends_trans(*old(ctx), before_ctx, mid_ctx);
            lemma_extends_trans(*old(ctx), mid_ctx, *ctx);
            assert(src_faithful(ctx, f, cctx.op_src(), cctx.block_src()));
            assert forall|k: int| 0 <= k < cctx.spec_regs().len() implies #[trigger] cctx.spec_regs()[k]
                < ctx.regions@.len() by {
                assert(mid_cctx.spec_regs()[k] < mid_ctx.regions@.len());
            }
            assert(cctx.inv(ctx, f));
            // the operations of `bb`
            let m0 = before_cctx.ops_map();
            let m1 = cctx.ops_map();
            let l0 = cached_ops_of(m0, insts@, j as nat);
            assert(before_ctx.ops_of(bb as int) == l0);
            assert(mid_ctx.ops_of(bb as int) == l0);
            assert(l0 =~= cached_ops_of(m1, insts@, j as nat)) by {
                assert forall|jj: int| 0 <= jj < j implies #[trigger] m0[insts@[jj]] == m1[insts@[jj]] by {
                    assert(m0.contains_key(insts@[jj]));
                    assert(m0.dom().contains(insts@[jj]));
                    assert(m1.dom().contains(insts@[jj]));
                }
            }
            assert(ctx.ops_of(bb as int) =~= l0.push(op));
            assert(ctx.ops_of(bb as int) =~= cached_ops_of(m1, insts@, (j + 1) as nat));
            assert(insts@.subrange(0, j + 1 as int) =~= insts@.subrange(0, j as int).push(inst));
            // what is still to place is not placed
            assert forall|i: u32|
                #[trigger] todo.contains(i) && !insts@.subrange(0, j + 1 as int).contains(i) && cctx.ops_map().contains_key(i)
                implies ctx.op_parent@[cctx.ops_map()[i] as int] is None by {
                assert(i != inst) by {
                    assert(insts@.subrange(0, j + 1 as int)[j as int] == inst);
                }
                let o = cctx.ops_map()[i];
                assert(o != op) by {
                    assert(cctx.op_src()[o] == i);
                    assert(cctx.op_src()[op] == inst);
                }
                if before_cctx.ops_map().contains_key(i) {
                    assert(!insts@.subrange(0, j as int).contains(i)) by {
                        if insts@.subrange(0, j as int).contains(i) {
                            let w = choose|w: int| 0 <= w < j && insts@.subrange(0, j as int)[w] == i;
                            assert(insts@.subrange(0, j + 1 as int)[w] == i);
                        }
                    }
                    assert(before_ctx.op_parent@[o as int] is None);
                    assert(o < before_ctx.ops@.len()) by {
                        assert(before_cctx.op_src().contains_key(o));
                    }
                    assert(mid_ctx.op_parent@[o as int] == before_ctx.op_parent@[o as int]);
                } else {
                    assert(o >= before_ctx.ops@.len());
                    assert(o < mid_ctx.ops@.len()) by {
                        assert(cctx.op_src().contains_key(o));
                    }
                    assert(mid_ctx.op_parent@[o as int] is None);
                }
            }
            if ready {
                assert(!before_cctx.ops_map().contains_key(inst));
                assert(m1 == m0.insert(inst, op));
                assert(cctx.ops_map().dom() =~= old(cctx).ops_map().dom().union(insts@.subrange(0, j + 1 as int).to_set())) by {
                    insts@.subrange(0, j as int).lemma_push_to_set_commute(inst);
                }
                assert(mid_ctx.ops@.len() == before_ctx.ops@.len() + 1);
                assert(op == before_ctx.ops@.len());
                assert forall|o: int| old(ctx).ops@.len() <= o < ctx.ops@.len() implies (#[trigger] ctx.op_parent@[o]) is Some by {
                    if o < before_ctx.ops@.len() {
                        assert(before_ctx.op_parent@[o] is Some);
                        assert(mid_ctx.op_parent@[o] == before_ctx.op_parent@[o]);
                    } else {
                        assert(o == op);
                    }
                }
            }
            // placements
            assert(mid_ctx.op_parent@[op as int] is None);
            assert forall|o: int|
                0 <= o < old(ctx).ops@.len() && (#[trigger] old(ctx).op_parent@[o]) is Some implies ctx.op_parent@[o]
                == old(ctx).op_parent@[o] by {
                assert(before_ctx.op_parent@[o] == old(ctx).op_parent@[o]);
                assert(mid_ctx.op_parent@[o] == before_ctx.op_parent@[o]);
            }
            assert forall|o: int|
                0 <= o < ctx.ops@.len() && (#[trigger] ctx.op_parent@[o]) is Some && (o >= old(ctx).ops@.len()
                    || old(ctx).op_parent@[o] is None) implies ctx.op_parent@[o] == Some(bb) by {
                if o != op {
                    if o < before_ctx.ops@.len() {
                        assert(mid_ctx.op_parent@[o] == before_ctx.op_parent@[o]);
                        if o < old(ctx).ops@.len() && old(ctx).op_parent@[o] is Some {
                            assert(before_ctx.op_parent@[o] == old(ctx).op_parent@[o]);
                        }
                    } else {
                        assert(mid_ctx.op_parent@[o] is None);
                    }
                }
            }
            assert forall|b: int|
                0 <= b < old(ctx).blocks@.len() && b != bb implies #[trigger] ctx.block_ops@[b] == old(ctx).block_ops@[b] by {
                assert(mid_ctx.block_ops@[b] == before_ctx.block_ops@[b]);
            }
            assert forall|b: int| 0 <= b < old(ctx).blocks@.len() implies #[trigger] ctx.block_parent@[b] == old(ctx).block_parent@[b] by {
                assert(mid_ctx.block_ops@[b] == before_ctx.block_ops@[b]);
                assert(mid_ctx.block_parent@[b] == before_ctx.block_parent@[b]);
            }
            assert forall|b: int|
                old(ctx).blocks@.len() <= b < ctx.blocks@.len() implies (#[trigger] ctx.block_ops@[b])@.len() == 0
                && ctx.block_parent@[b] is None by {
                assert(b != bb);
                if j == 0 {
                    assert(ctx.block_ops@[b] == mid_ctx.block_ops@[b]);
                } else {
                    assert(ctx.block_ops@[b] == mid_ctx.block_ops@[b]);
                }
                assert(ctx.block_parent@[b] == mid_ctx.block_parent@[b]);
                if b < before_ctx.blocks@.len() {
                    assert(before_ctx.block_ops@[b]@.len() == 0);
                    assert(mid_ctx.block_ops@[b] == before_ctx.block_ops@[b]);
                    assert(mid_ctx.block_parent@[b] == before_ctx.block_parent@[b]);
                } else {
                    assert(mid_ctx.block_ops@[b]@.len() == 0);
                }
            }
            if !rpo {
                lemma_closure_mono(f, s, rank, before_cctx.cached_insts(), before_cctx.cached_blocks(), cctx.cached_insts(), cctx.cached_blocks());
            }
        }
        j = j + 1;
    }
    proof {
        assert(insts@.subrange(0, j as int) =~= insts@);
        if ready {
            assert(cctx.cached_insts() =~= old(cctx).cached_insts().union(f.insts_of(block).to_set()));
        }
    }
}

/// Operations recorded since `base` keep the cached values as operands through two steps.
proof fn lemma_operands_cached_trans(
    c0ctx: &Context,
    c1ctx: &Context,
    f: &ClifFunction,
    base: &ConversionCtx,
    c0: &ConversionCtx,
    c1: &ConversionCtx,
)
    requires
        operands_cached(c0ctx, f, base, c0),
        operands_cached(c1ctx, f, c0, c1),
        src_faithful(c0ctx, f, c0.op_src(), c0.block_src()),
        c1ctx.extends(c0ctx),
        c0.ops_map().submap_of(c1.ops_map()),
        c0.bbs_map().submap_of(c1.bbs_map()),
        c0.op_src().submap_of(c1.op_src()),
    ensures
        operands_cached(c1ctx, f, base, c1),
{
    lemma_operands_cached_grow(c0ctx, c1ctx, f, base, c0, c1);
    assert forall|o: usize| #[trigger] c1.op_src().contains_key(o) && !base.op_src().contains_key(o) implies {
        &&& c1ctx.ops@[o as int].operands@ == cached_operands(f, c1.ops_map(), c1.bbs_map(), c1.op_src()[o])
        &&& forall|j: int|
            0 <= j < f.args_of(c1.op_src()[o]).len() ==> arg_cached(
                f,
                c1.cached_insts(),
                c1.cached_blocks(),
                #[trigger] f.args_of(c1.op_src()[o])[j],
            )
    } by {
        if c0.op_src().contains_key(o) {
        }
    }
}

/// Caching the new operation `op` that was just recorded for `inst`, which was not
/// cached, keeps the invariant and caches every operation recorded since `before`.
proof fn lemma_cache_new_op(
    before_ctx: &Context,
    ctx: &Context,
    f: &ClifFunction,
    before: &ConversionCtx,
    w: &ConversionCtx,
    c: &ConversionCtx,
    op: usize,
    inst: u32,
)
    requires
        before.inv(before_ctx, f),
        w.inv(ctx, f),
        w.recorded_from(before),
        w.op_src() == before.op_src().insert(op, inst),
        w.block_src() == before.block_src(),
        !before.ops_map().contains_key(inst),
        op == before_ctx.ops@.len(),
        c.ops_map() == w.ops_map().insert(inst, op),
        c.bbs_map() == w.bbs_map(),
        c.op_src() == w.op_src(),
        c.block_src() == w.block_src(),
        c.spec_entry_block() == w.spec_entry_block(),
        c.spec_func_op() == w.spec_func_op(),
        c.spec_regs() == w.spec_regs(),
    ensures
        c.inv(ctx, f),
        c.cached_from(before, before_ctx.ops@.len() as nat, before_ctx.blocks@.len() as nat),
{
    assert(!before.op_src().contains_key(op)) by {
        if before.op_src().contains_key(op) {
            assert(op < before_ctx.ops@.len());
        }
    }
    assert forall|i: u32| #[trigger] c.ops_map().contains_key(i) implies {
        &&& c.op_src().contains_key(c.ops_map()[i])
        &&& c.op_src()[c.ops_map()[i]] == i
    } by {
        if i != inst {
            assert(w.ops_map().contains_key(i));
        }
    }
    assert(before.ops_map().submap_of(c.ops_map())) by {
        assert forall|i: u32| #[trigger] before.ops_map().dom().contains(i) implies c.ops_map().dom().contains(i)
            && before.ops_map()[i] == c.ops_map()[i] by {
            assert(i != inst);
        }
    }
    assert(before.bbs_map().submap_of(c.bbs_map()));
    assert(before.op_src().submap_of(c.op_src()));
    assert(before.block_src().submap_of(c.block_src()));
    assert forall|o: usize|
        #[trigger] c.op_src().contains_key(o) && !before.op_src().contains_key(o) && o != -1 implies c.ops_map().contains_key(
        c.op_src()[o],
    ) && c.ops_map()[c.op_src()[o]] == o by {
        assert(o == op);
    }
    assert forall|bb: usize|
        #[trigger] c.block_src().contains_key(bb) && !before.block_src().contains_key(bb) implies c.bbs_map().contains_key(
        c.block_src()[bb],
    ) && c.bbs_map()[c.block_src()[bb]] == bb by {
        assert(w.block_src() == before.block_src());
    }
    assert forall|i: u32| #[trigger] c.ops_map().contains_key(i) && !before.ops_map().contains_key(i) implies c.ops_map()[i]
        >= before_ctx.ops@.len() by {
        assert(i == inst);
    }
}

/// The instructions of the first `n` blocks of `order`.
pub open spec fn insts_before(f: &ClifFunction, order: Seq<u32>, n: int) -> Set<u32> {
    Set::new(
        |i: u32|
            exists|k: int, j: int|
                0 <= k < n && 0 <= j < f.insts_of(order[k]).len() && #[trigger] f.insts_of(order[k])[j] == i,
    )
}

/// The IR block placed for the block at position `k` of `order`: the entry block for
/// the first one, the cached block for the others.
pub open spec fn placed_block(order: Seq<u32>, bbs: Map<u32, usize>, entry: usize, k: int) -> usize {
    if k == 0 {
        entry
    } else {
        bbs[order[k]]
    }
}

/// The blocks of the function body after converting the first `n` blocks of `order`.
pub open spec fn placed_blocks(order: Seq<u32>, bbs: Map<u32, usize>, entry: usize, n: int) -> Seq<usize> {
    Seq::new(if n == 0 { 1 } else { n as nat }, |k: int| placed_block(order, bbs, entry, k))
}

/// The instructions of the first `n + 1` blocks of `order` are those of the first `n`
/// blocks and those of block `n`.
pub(crate) proof fn lemma_insts_before_step(f: &ClifFunction, order: Seq<u32>, n: int)
    requires
        0 <= n < order.len(),
    ensures
        insts_before(f, order, n + 1) == insts_before(f, order, n).union(f.insts_of(order[n]).to_set()),
{
    let a = insts_before(f, order, n + 1);
    let b = insts_before(f, order, n).union(f.insts_of(order[n]).to_set());
    assert forall|i: u32| a.contains(i) implies b.contains(i) by {
        let (k, j) = choose|k: int, j: int|
            0 <= k < n + 1 && 0 <= j < f.insts_of(order[k]).len() && #[trigger] f.insts_of(order[k])[j] == i;
        if k == n {
            assert(f.insts_of(order[n]).contains(i));
        } else {
            assert(insts_before(f, order, n).contains(i));
        }
    }
    assert forall|i: u32| b.contains(i) implies a.contains(i) by {
        if insts_before(f, order, n).contains(i) {
            let (k, j) = choose|k: int, j: int|
                0 <= k < n && 0 <= j < f.insts_of(order[k]).len() && #[trigger] f.insts_of(order[k])[j] == i;
            assert(f.insts_of(order[k])[j] == i);
        } else {
            assert(f.insts_of(order[n]).to_set().contains(i));
            let j = choose|j: int| 0 <= j < f.insts_of(order[n]).len() && f.insts_of(order[n])[j] == i;
            assert(f.insts_of(order[n])[j] == i);
        }
    }
    assert(a =~= b);
}

/// An instruction of the block at position `n` of `order` is not in the blocks
/// before it, and is in `order`.
proof fn lemma_order_inst_fresh(f: &ClifFunction, order: Seq<u32>, n: int, j: int)
    requires
        f.blocks_unique(order),
        0 <= n < order.len(),
        0 <= j < f.insts_of(order[n]).len(),
    ensures
        !insts_before(f, order, n).contains(f.insts_of(order[n])[j]),
        insts_before(f, order, order.len() as int).contains(f.insts_of(order[n])[j]),
{
    let i = f.insts_of(order[n])[j];
    if insts_before(f, order, n).contains(i) {
        let (k, jj) = choose|k: int, jj: int|
            0 <= k < n && 0 <= jj < f.insts_of(order[k]).len() && #[trigger] f.insts_of(
                order[k],
            )[jj] == i;
        assert(f.insts_of(order[k])[jj] != f.insts_of(order[n])[j]);
    }
    assert(f.insts_of(order[n])[j] == i);
}

/// The block at position `n` of `order` is not among the blocks before it.
proof fn lemma_order_block_fresh(f: &ClifFunction, order: Seq<u32>, n: int)
    requires
        f.blocks_unique(order),
        0 <= n < order.len(),
    ensures
        !order.subrange(0, n).to_set().contains(order[n]),
        order.subrange(0, n + 1).to_set() == order.subrange(0, n).to_set().insert(order[n]),
{
    if order.subrange(0, n).to_set().contains(order[n]) {
        let k = choose|k: int| 0 <= k < n && order.subrange(0, n)[k] == order[n];
        assert(order[k] == order[n]);
    }
    assert(order.subrange(0, n + 1) =~= order.subrange(0, n).push(order[n]));
    order.subrange(0, n).lemma_push_to_set_commute(order[n]);
}

/// Every block of `order` is ready once the instructions of `ci` and of the blocks before
/// it, and the blocks of `cb`, of `order` up to it included, are cached.
pub open spec fn order_ready(f: &ClifFunction, order: Seq<u32>, ci: Set<u32>, cb: Set<u32>) -> bool {
    forall|k: int|
        0 <= k < order.len() ==> block_ready(
            f,
            #[trigger] order[k],
            ci.union(insts_before(f, order, k)),
            cb.union(order.subrange(0, k + 1).to_set()),
        )
}

/// Caching the new block `bb` that was just recorded for `block`, which was not cached,
/// keeps the invariant and caches every block recorded since `before`.
proof fn lemma_cache_new_block(
    before_ctx: &Context,
    ctx: &Context,
    f: &ClifFunction,
    before: &ConversionCtx,
    w: &ConversionCtx,
    c: &ConversionCtx,
    bb: usize,
    block: u32,
)
    requires
        before.inv(before_ctx, f),
        w.inv(ctx, f),
        w.recorded_from(before),
        w.block_src() == before.block_src().insert(bb, block),
        w.op_src() == before.op_src(),
        !before.bbs_map().contains_key(block),
        bb == before_ctx.blocks@.len(),
        c.ops_map() == w.ops_map(),
        c.bbs_map() == w.bbs_map().insert(block, bb),
        c.op_src() == w.op_src(),
        c.block_src() == w.block_src(),
        c.spec_entry_block() == w.spec_entry_block(),
        c.spec_func_op() == w.spec_func_op(),
        c.spec_regs() == w.spec_regs(),
    ensures
        c.inv(ctx, f),
        c.cached_from(before, before_ctx.ops@.len() as nat, before_ctx.blocks@.len() as nat),
{
    assert(!before.block_src().contains_key(bb)) by {
        if before.block_src().contains_key(bb) {
            assert(bb < before_ctx.blocks@.len());
        }
    }
    assert forall|b: u32| #[trigger] c.bbs_map().contains_key(b) implies {
        &&& c.block_src().contains_key(c.bbs_map()[b])
        &&& c.block_src()[c.bbs_map()[b]] == b
    } by {
        if b != block {
            assert(w.bbs_map().contains_key(b));
        }
    }
    assert(before.bbs_map().submap_of(c.bbs_map())) by {
        assert forall|b: u32| #[trigger] before.bbs_map().dom().contains(b) implies c.bbs_map().dom().contains(b)
            && before.bbs_map()[b] == c.bbs_map()[b] by {
            assert(b != block);
        }
    }
    assert(before.ops_map().submap_of(c.ops_map()));
    assert(before.op_src().submap_of(c.op_src()));
    assert(before.block_src().submap_of(c.block_src()));
    assert forall|o: usize|
        #[trigger] c.op_src().contains_key(o) && !before.op_src().contains_key(o) && o != -1 implies c.ops_map().contains_key(
        c.op_src()[o],
    ) && c.ops_map()[c.op_src()[o]] == o by {}
    assert forall|bb2: usize|
        #[trigger] c.block_src().contains_key(bb2) && !before.block_src().contains_key(bb2) implies c.bbs_map().contains_key(
        c.block_src()[bb2],
    ) && c.bbs_map()[c.block_src()[bb2]] == bb2 by {
        assert(bb2 == bb);
    }
    assert forall|b: u32| #[trigger] c.bbs_map().contains_key(b) && !before.bbs_map().contains_key(b) implies c.bbs_map()[b]
        >= before_ctx.blocks@.len() by {
        assert(b == block);
    }
}

/// Converts the blocks of `order`, in order, and places them and their instructions in
/// the function body `region`, which holds just the entry block: the first block of
/// `order` is the entry block, each further block is converted and placed after the
/// previous one.  Instructions are converted as [`crate::convert::convert_instruction`] does, converting
/// and caching definitions on demand, so that a definition converted on demand is the
/// operation or block placed when the walk comes to it, or, with `rpo`, as
/// [`convert_instruction_w_rpo`] does, taking every definition from the cache.
#[verifier::spinoff_prover]
#[verifier::rlimit(80)]
fn convert_and_link(
    ctx: &mut Context,
    f: &ClifFunction,
    cctx: &mut ConversionCtx,
    order: &Vec<u32>,
    rpo: bool,
    Ghost(s): Ghost<Set<u32>>,
    Ghost(rank): Ghost<Map<u32, nat>>,
    Ghost(region): Ghost<usize>,
    Ghost(ready): Ghost<bool>,
)
    requires
        old(ctx).wf(),
        f.wf(),
        f.blocks_unique(order@),
        old(cctx).inv(old(ctx), f),
        old(cctx).spec_entry_block() is Some,
        region < old(ctx).regions@.len(),
        old(ctx).blocks_of(region as int) == seq![old(cctx).spec_entry_block()->0],
        old(ctx).ops_of(old(cctx).spec_entry_block()->0 as int).len() == 0,
        order@.len() > 0 ==> old(cctx).bbs_map().contains_key(order@[0]) && old(cctx).bbs_map()[order@[0]]
            == old(cctx).spec_entry_block()->0 && f.entry_block == Some(order@[0]),
        forall|k: int|
            1 <= k < order@.len() ==> !old(cctx).cached_blocks().contains(#[trigger] order@[k])
                && f.block_params_i32(order@[k]),
        forall|i: u32| #[trigger] insts_before(f, order@, order@.len() as int).contains(i) ==> (!rpo ==> s.contains(i)) && !old(cctx).cached_insts().contains(i),
        !rpo ==> closure_ok(f, s, rank, old(cctx).cached_insts(), old(cctx).cached_blocks()),
        rpo ==> ready,
        ready ==> order_ready(f, order@, old(cctx).cached_insts(), old(cctx).cached_blocks()),
    ensures
        final(ctx).wf(),
        final(ctx).extends(old(ctx)),
        final(cctx).inv(final(ctx), f),
        final(cctx).cached_from(old(cctx), old(ctx).ops@.len() as nat, old(ctx).blocks@.len() as nat),
        operands_cached(final(ctx), f, old(cctx), final(cctx)),
        all_recorded(old(ctx), final(ctx), final(cctx)),
        !rpo ==> forall|i: u32|
            #[trigger] final(cctx).ops_map().contains_key(i) && !old(cctx).ops_map().contains_key(i) ==> s.contains(i),
        !rpo ==> forall|b: u32|
            #[trigger] final(cctx).bbs_map().contains_key(b) && !old(cctx).bbs_map().contains_key(b) ==> order@.contains(b)
                || arg_block_of(f, s, b),
        ({
            let entry = old(cctx).spec_entry_block()->0;
            let bbs = final(cctx).bbs_map();
            let n = order@.len() as int;
            &&& final(ctx).blocks_of(region as int) == placed_blocks(order@, bbs, entry, n)
            &&& forall|k: int|
                0 <= k < n ==> #[trigger] final(ctx).ops_of(placed_block(order@, bbs, entry, k) as int) == cached_ops_of(
                    final(cctx).ops_map(),
                    f.insts_of(order@[k]),
                    f.insts_of(order@[k]).len(),
                )
            &&& forall|k: int|
                1 <= k < n ==> bbs.contains_key(order@[k]) && #[trigger] placed_block(order@, bbs, entry, k) >= old(ctx).blocks@.len()
                    && block_created_in(*final(ctx), f, order@[k], placed_block(order@, bbs, entry, k))
            &&& forall|i: u32| #[trigger] insts_before(f, order@, n).contains(i) ==> final(cctx).cached_insts().contains(i)
            &&& forall|k: int| 0 <= k < n ==> final(cctx).cached_blocks().contains(#[trigger] order@[k])
            &&& ready ==> final(cctx).cached_insts() == old(cctx).cached_insts().union(insts_before(f, order@, n))
            &&& ready ==> final(cctx).cached_blocks() == old(cctx).cached_blocks().union(order@.to_set())
        }),
        forall|o: int| 0 <= o < old(ctx).ops@.len() ==> #[trigger] final(ctx).op_parent@[o] == old(ctx).op_parent@[o],
        forall|b: int|
            0 <= b < old(ctx).blocks@.len() && b != old(cctx).spec_entry_block()->0 ==> #[trigger] final(ctx).block_ops@[b]
                == old(ctx).block_ops@[b],
        forall|b: int| 0 <= b < old(ctx).blocks@.len() ==> #[trigger] final(ctx).block_parent@[b] == old(ctx).block_parent@[b],
        final(ctx).regions@ == old(ctx).regions@,
        order@.len() == 0 ==> final(ctx).ops_of(old(cctx).spec_entry_block()->0 as int).len() == 0,
        forall|r: int|
            0 <= r < old(ctx).regions@.len() && r != region ==> #[trigger] final(ctx).region_blocks@[r]
                == old(ctx).region_blocks@[r],
        ready ==> forall|o: int|
            old(ctx).ops@.len() <= o < final(ctx).ops@.len() ==> (#[trigger] final(ctx).op_parent@[o]) is Some,
        ready ==> forall|b: int|
            old(ctx).blocks@.len() <= b < final(ctx).blocks@.len() ==> (#[trigger] final(ctx).block_parent@[b]) is Some,
{
    let mut prev_bb = match cctx.entry_block() {
        Some(entry) => entry,
        None => {
            return;
        },
    };
    let ghost entry = prev_bb;
    let ghost n = order@.len() as int;
    let mut idx: usize = 0;
    proof {
        lemma_cached_from_refl(cctx, old(ctx).ops@.len() as nat, old(ctx).blocks@.len() as nat);
        assert(entry < old(ctx).blocks@.len());
        assert(insts_before(f, order@, 0) =~= Set::<u32>::empty()) by {
            assert forall|i: u32| !insts_before(f, order@, 0).contains(i) by {}
        }
        assert(order@.subrange(0, 0).to_set() =~= Set::<u32>::empty());
        assert(cctx.cached_insts() =~= old(cctx).cached_insts().union(insts_before(f, order@, 0)));
        assert(cctx.cached_blocks() =~= old(cctx).cached_blocks().union(order@.subrange(0, 0).to_set()));
    }
    while idx < order.len()
        invariant
            f.wf(),
            f.blocks_unique(order@),
            n == order@.len(),
            old(ctx).wf(),
            old(cctx).inv(old(ctx), f),
            entry == old(cctx).spec_entry_block()->0,
            entry < old(ctx).blocks@.len(),
            region < old(ctx).regions@.len(),
            old(ctx).blocks_of(region as int) == seq![entry],
            old(ctx).ops_of(entry as int).len() == 0,
            order@.len() > 0 ==> old(cctx).bbs_map().contains_key(order@[0]) && old(cctx).bbs_map()[order@[0]] == entry
                && f.entry_block == Some(order@[0]),
            forall|k: int|
                1 <= k < order@.len() ==> !old(cctx).cached_blocks().contains(#[trigger] order@[k])
                    && f.block_params_i32(order@[k]),
            forall|i: u32| #[trigger] insts_before(f, order@, order@.len() as int).contains(i) ==> (!rpo ==> s.contains(i)) && !old(cctx).cached_insts().contains(i),
            rpo ==> ready,
            ready ==> order_ready(f, order@, old(cctx).cached_insts(), old(cctx).cached_blocks()),
            idx <= order@.len(),
            ctx.wf(),
            ctx.extends(old(ctx)),
            cctx.inv(ctx, f),
            cctx.cached_from(old(cctx), old(ctx).ops@.len() as nat, old(ctx).blocks@.len() as nat),
            operands_cached(ctx, f, old(cctx), cctx),
            all_recorded(old(ctx), ctx, cctx),
            !rpo ==> forall|i: u32|
                #[trigger] cctx.ops_map().contains_key(i) && !old(cctx).ops_map().contains_key(i) ==> s.contains(i),
            !rpo ==> forall|b: u32|
                #[trigger] cctx.bbs_map().contains_key(b) && !old(cctx).bbs_map().contains_key(b) ==> order@.contains(b)
                    || arg_block_of(f, s, b),
            !rpo ==> closure_ok(f, s, rank, cctx.cached_insts(), cctx.cached_blocks()),
            ctx.blocks_of(region as int) == placed_blocks(order@, cctx.bbs_map(), entry, idx as int),
            prev_bb == placed_block(order@, cctx.bbs_map(), entry, if idx == 0 { 0 } else { idx - 1 }),
            idx == 0 ==> ctx.ops_of(entry as int).len() == 0,
            forall|k: int|
                0 <= k < idx ==> #[trigger] ctx.ops_of(placed_block(order@, cctx.bbs_map(), entry, k) as int) == cached_ops_of(
                    cctx.ops_map(),
                    f.insts_of(order@[k]),
                    f.insts_of(order@[k]).len(),
                ),
            forall|k: int|
                1 <= k < idx ==> cctx.bbs_map().contains_key(order@[k]) && #[trigger] placed_block(order@, cctx.bbs_map(), entry, k)
                    >= old(ctx).blocks@.len() && block_created_in(*ctx, f, order@[k], placed_block(order@, cctx.bbs_map(), entry, k)),
            forall|i: u32| #[trigger] insts_before(f, order@, idx as int).contains(i) ==> cctx.cached_insts().contains(i),
            forall|k: int| 0 <= k < idx ==> cctx.cached_blocks().contains(#[trigger] order@[k]),
            ready ==> cctx.cached_insts() == old(cctx).cached_insts().union(insts_before(f, order@, idx as int)),
            ready ==> cctx.cached_blocks() == old(cctx).cached_blocks().union(order@.subrange(0, idx as int).to_set()),
            forall|i: u32|
                #[trigger] insts_before(f, order@, n).contains(i) && !insts_before(f, order@, idx as int).contains(i)
                    && cctx.ops_map().contains_key(i) ==> ctx.op_parent@[cctx.ops_map()[i] as int] is None,
            forall|o: int| 0 <= o < old(ctx).ops@.len() ==> #[trigger] ctx.op_parent@[o] == old(ctx).op_parent@[o],
            forall|b: int|
                0 <= b < old(ctx).blocks@.len() && b != entry ==> #[trigger] ctx.block_ops@[b] == old(ctx).block_ops@[b],
            forall|b: int| 0 <= b < old(ctx).blocks@.len() ==> #[trigger] ctx.block_parent@[b] == old(ctx).block_parent@[b],
            forall|b: int|
                old(ctx).blocks@.len() <= b < ctx.blocks@.len() && !placed_blocks(order@, cctx.bbs_map(), entry, idx as int).contains(b as usize)
                    ==> (#[trigger] ctx.block_ops@[b])@.len() == 0 && ctx.block_parent@[b] is None,
            ctx.regions@ == old(ctx).regions@,
            forall|r: int|
                0 <= r < old(ctx).regions@.len() && r != region ==> #[trigger] ctx.region_blocks@[r]
                    == old(ctx).region_blocks@[r],
            ready ==> forall|o: int|
                old(ctx).ops@.len() <= o < ctx.ops@.len() ==> (#[trigger] ctx.op_parent@[o]) is Some,
            ready ==> forall|b: int|
                old(ctx).blocks@.len() <= b < ctx.blocks@.len() ==> (#[trigger] ctx.block_parent@[b]) is Some,
        decreases order@.len() - idx,
    {
        let block = order[idx];
        let ghost c0 = *ctx;
        let ghost m0 = *cctx;
        let ghost list0 = ctx.blocks_of(region as int);
        proof {
            if idx > 0 {
                lemma_order_block_fresh(f, order@, idx as int);
                assert(!old(cctx).cached_blocks().contains(block));
                assert(block != order@[0]) by {
                    assert(order@.no_duplicates());
                }
            }
        }
        let bb = if idx == 0 {
            proof {
                assert(cctx.bbs_map().contains_key(block) && cctx.bbs_map()[block] == entry) by {
                    assert(old(cctx).bbs_map().dom().contains(block));
                    assert(cctx.bbs_map().dom().contains(block));
                }
                lemma_cached_from_refl(cctx, c0.ops@.len() as nat, c0.blocks@.len() as nat);
            }
            prev_bb
        } else if !rpo {
            convert_block(ctx, f, cctx, block).unwrap()
        } else {
            proof {
                assert(!cctx.cached_blocks().contains(block)) by {
                    assert(cctx.cached_blocks() =~= old(cctx).cached_blocks().union(order@.subrange(0, idx as int).to_set()));
                    lemma_order_block_fresh(f, order@, idx as int);
                }
            }
            let bb = convert_block_w_rpo(ctx, f, block).unwrap();
            cctx.record_block(Ghost(bb), Ghost(block));
            let ghost w = *cctx;
            proof {
                lemma_record_block(&c0, ctx, f, &m0, cctx, bb, block);
            }
            cctx.cache_block(block, bb);
            proof {
                lemma_cache_new_block(&c0, ctx, f, &m0, &w, cctx, bb, block);
            }
            bb
        };
        let ghost c0b = *ctx;
        let ghost m0b = *cctx;
        proof {
            assert(all_recorded(&c0, &c0b, &m0b)) by {
                assert forall|x: usize| c0.blocks@.len() <= x < c0b.blocks@.len() implies #[trigger] m0b.block_src().contains_key(x) by {
                    assert(x == bb);
                }
            }
            assert(grew_unplaced(c0, *ctx));
            assert(cctx.inv(ctx, f));
            assert(cctx.cached_from(&m0, c0.ops@.len() as nat, c0.blocks@.len() as nat));
            assert(cctx.ops_map() == m0.ops_map());
            assert(cctx.op_src() == m0.op_src());
            assert(cctx.bbs_map().contains_key(block) && cctx.bbs_map()[block] == bb);
            lemma_cached_from_trans(
                old(cctx),
                &m0,
                cctx,
                old(ctx).ops@.len() as nat,
                old(ctx).blocks@.len() as nat,
                c0.ops@.len() as nat,
                c0.blocks@.len() as nat,
            );
            lemma_extends_trans(*old(ctx), c0, *ctx);
            assert(operands_cached(ctx, f, old(cctx), cctx)) by {
                assert(m0.ops_map().submap_of(cctx.ops_map()));
                lemma_operands_cached_grow(&c0, ctx, f, old(cctx), &m0, cctx);
            }
            if idx == 0 {
                assert(bb == entry && *ctx == c0 && *cctx == m0);
            } else {
                // the block is new to the walk: created now, or on demand before
                assert(bb >= old(ctx).blocks@.len()) by {
                    assert(!old(cctx).bbs_map().contains_key(block));
                }
                assert(cctx.block_src().contains_key(bb) && cctx.block_src()[bb] == block);
                assert(faithful_block(ctx, f, cctx.block_src(), bb));
                assert(block_created_in(*ctx, f, block, bb));
                assert(bb < ctx.blocks@.len());
                // it is not placed yet
                assert(!list0.contains(bb)) by {
                    if list0.contains(bb) {
                        let k = choose|k: int| 0 <= k < list0.len() && list0[k] == bb;
                        if k == 0 {
                            assert(list0[0] == entry);
                        } else {
                            assert(list0[k] == m0.bbs_map()[order@[k]]);
                            assert(m0.bbs_map().contains_key(order@[k]));
                            assert(cctx.bbs_map()[order@[k]] == bb);
                            assert(cctx.block_src()[bb] == order@[k]);
                            assert(order@[k] != block) by {
                                assert(order@.no_duplicates());
                            }
                        }
                    }
                }
                if bb < c0.blocks@.len() {
                    assert(list0 == placed_blocks(order@, m0.bbs_map(), entry, idx as int));
                    assert(!placed_blocks(order@, m0.bbs_map(), entry, idx as int).contains((bb as int) as usize));
                    assert(old(ctx).blocks@.len() <= bb as int && (bb as int) < c0.blocks@.len());
                    assert(c0.blocks_of(region as int) == list0);
                    assert(c0.block_ops@[bb as int]@.len() == 0);
                    assert(c0.block_parent@[bb as int] is None);
                    assert(ctx.block_ops@[bb as int] == c0.block_ops@[bb as int]);
                }
                assert(ctx.block_ops@[bb as int]@.len() == 0);
                assert(ctx.block_parent@[bb as int] is None);
            }
        }
        if idx == 0 {
        } else {
            proof {
                assert(list0[idx - 1] == prev_bb);
                assert(c0.block_parent@[prev_bb as int] == Some(region));
                assert(c0b.block_parent@[prev_bb as int] == Some(region)) by {
                    assert(c0b.block_ops@[prev_bb as int] == c0.block_ops@[prev_bb as int]);
                }
                assert(placed_blocks(order@, m0b.bbs_map(), entry, idx as int) =~= list0) by {
                    assert forall|k: int| 0 <= k < list0.len() implies placed_block(order@, m0b.bbs_map(), entry, k) == list0[k] by {
                        if k > 0 {
                            assert(m0.bbs_map().contains_key(order@[k]));
                        }
                    }
                }
            }
            ctx.insert_block_after(bb, prev_bb);
            proof {
                assert(c0b.blocks_of(region as int) == list0);
                assert(list0.index_of(prev_bb) == idx - 1) by {
                    let w = list0.index_of(prev_bb);
                    assert(list0.no_duplicates());
                    assert(list0[w] == prev_bb);
                }
                assert(ctx.blocks_of(region as int) =~= list0.push(bb));
            }
            prev_bb = bb;
        }
        let ghost c1 = *ctx;
        let ghost m1 = *cctx;
        let ghost todo = insts_before(f, order@, n).difference(insts_before(f, order@, idx as int));
        proof {
            lemma_insts_before_step(f, order@, idx as int);
            assert forall|j: int| 0 <= j < f.insts_of(block).len() implies (!rpo ==> s.contains(#[trigger] f.insts_of(block)[j]))
                && todo.contains(f.insts_of(block)[j]) by {
                lemma_order_inst_fresh(f, order@, idx as int, j);
            }
            assert forall|i: u32| #[trigger] todo.contains(i) && m1.ops_map().contains_key(i) implies c1.op_parent@[m1.ops_map()[i] as int] is None by {
                assert(m0.ops_map().contains_key(i));
                assert(c0b.op_parent@[m0.ops_map()[i] as int] == c0.op_parent@[m0.ops_map()[i] as int]) by {
                    assert(m0.op_src().contains_key(m0.ops_map()[i]));
                }
            }
            if idx == 0 && ready {
                assert(m1.cached_blocks() =~= old(cctx).cached_blocks().union(order@.subrange(0, idx + 1).to_set())) by {
                    assert(order@.subrange(0, 1) =~= seq![block]);
                    assert(seq![block].to_set() =~= set![block]) by {
                        assert(seq![block][0] == block);
                        assert(seq![block].to_set().contains(block));
                    }
                    assert(old(cctx).bbs_map().dom().contains(block));
                }
            } else if ready {
                lemma_order_block_fresh(f, order@, idx as int);
                assert(!m0.cached_blocks().contains(block));
                assert(m1.bbs_map() == m0.bbs_map().insert(block, bb));
                assert(m1.cached_blocks() =~= old(cctx).cached_blocks().union(order@.subrange(0, idx + 1).to_set()));
            }
            if ready {
                assert(block_ready(f, block, m1.cached_insts(), m1.cached_blocks()));
                assert forall|i: u32| #[trigger] todo.contains(i) implies !m1.cached_insts().contains(i) by {
                    assert(!old(cctx).cached_insts().contains(i));
                }
            }
            assert(f.insts_of(block).no_duplicates()) by {
                assert forall|j1: int, j2: int|
                    0 <= j1 < f.insts_of(block).len() && 0 <= j2 < f.insts_of(block).len() && j1 != j2
                    implies f.insts_of(block)[j1] != f.insts_of(block)[j2] by {
                    assert(f.insts_of(order@[idx as int])[j1] != f.insts_of(order@[idx as int])[j2]);
                }
            }
            if idx == 0 {
                assert(c1.ops_of(bb as int).len() == 0);
            }
            if !rpo {
                assert(m0.cached_insts().subset_of(m1.cached_insts()));
                lemma_closure_mono(f, s, rank, m0.cached_insts(), m0.cached_blocks(), m1.cached_insts(), m1.cached_blocks());
            }
        }
        link_block_insts(ctx, f, cctx, block, bb, rpo, Ghost(s), Ghost(rank), Ghost(ready), Ghost(todo));
        proof {
            let bbs0 = m0.bbs_map();
            let bbs2 = cctx.bbs_map();
            lemma_insts_before_step(f, order@, idx as int);
            lemma_extends_trans(*old(ctx), c0, c0b);
            lemma_extends_trans(*old(ctx), c0b, c1);
            lemma_extends_trans(*old(ctx), c1, *ctx);
            lemma_cached_from_trans(
                old(cctx),
                &m1,
                cctx,
                old(ctx).ops@.len() as nat,
                old(ctx).blocks@.len() as nat,
                c1.ops@.len() as nat,
                c1.blocks@.len() as nat,
            );
            assert(operands_cached(&c1, f, old(cctx), &m1)) by {
                assert(c1.ops@ == c0b.ops@);
            }
            lemma_operands_cached_trans(&c1, ctx, f, old(cctx), &m1, cctx);
            assert(m0.op_src().submap_of(m1.op_src()));
            assert(m0.block_src().submap_of(m1.block_src()));
            lemma_all_recorded_trans(old(ctx), &c0, &c1, &m0, &m1);
            assert(m1.op_src().submap_of(cctx.op_src()));
            assert(m1.block_src().submap_of(cctx.block_src()));
            lemma_all_recorded_trans(old(ctx), &c1, ctx, &m1, cctx);
            if !rpo {
                assert forall|i: u32|
                    #[trigger] cctx.ops_map().contains_key(i) && !old(cctx).ops_map().contains_key(i) implies s.contains(i) by {
                    if !m1.ops_map().contains_key(i) {
                    } else {
                        assert(m0.ops_map().contains_key(i));
                    }
                }
                assert forall|b: u32|
                    #[trigger] cctx.bbs_map().contains_key(b) && !old(cctx).bbs_map().contains_key(b) implies order@.contains(b)
                    || arg_block_of(f, s, b) by {
                    if !m1.bbs_map().contains_key(b) {
                    } else if !m0.bbs_map().contains_key(b) {
                        assert(b == block);
                        assert(order@[idx as int] == b);
                    }
                }
                assert(m1.cached_insts().subset_of(cctx.cached_insts())) by {
                    assert forall|i: u32| m1.cached_insts().contains(i) implies cctx.cached_insts().contains(i) by {
                        assert(m1.ops_map().dom().contains(i));
                    }
                }
                assert(m1.cached_blocks().subset_of(cctx.cached_blocks())) by {
                    assert forall|b: u32| m1.cached_blocks().contains(b) implies cctx.cached_blocks().contains(b) by {
                        assert(m1.bbs_map().dom().contains(b));
                    }
                }
                lemma_closure_mono(f, s, rank, m1.cached_insts(), m1.cached_blocks(), cctx.cached_insts(), cctx.cached_blocks());
            }
            // the blocks placed so far keep their cache entries
            assert forall|k: int| 0 <= k <= idx implies #[trigger] placed_block(order@, bbs2, entry, k)
                == placed_block(order@, m1.bbs_map(), entry, k) by {
                if k > 0 {
                    assert(m1.bbs_map().dom().contains(order@[k]));
                    assert(bbs2.dom().contains(order@[k]));
                }
            }
            assert(bb == placed_block(order@, bbs2, entry, idx as int));
            assert(ctx.blocks_of(region as int) =~= placed_blocks(order@, bbs2, entry, idx + 1)) by {
                if idx == 0 {
                    assert(list0 =~= seq![entry]);
                } else {
                    assert(c1.blocks_of(region as int) =~= list0.push(bb));
                }
                assert forall|k: int| 0 <= k < list0.len() implies list0[k] == placed_block(order@, bbs2, entry, k) by {
                    if k > 0 {
                        assert(m0.bbs_map().dom().contains(order@[k]));
                        assert(bbs0[order@[k]] == m1.bbs_map()[order@[k]]);
                    }
                }
            }
            assert forall|k: int| 0 <= k < idx implies placed_block(order@, bbs0, entry, k) != bb && placed_block(
                order@,
                bbs0,
                entry,
                k,
            ) < c0.blocks@.len() by {
                assert(list0[k] == placed_block(order@, bbs0, entry, k)) by {
                    if k > 0 {
                        assert(m0.bbs_map().dom().contains(order@[k]));
                    }
                }
                assert(list0[k] < c0.blocks@.len());
            }
            assert forall|k: int|
                0 <= k < idx + 1 implies #[trigger] ctx.ops_of(placed_block(order@, cctx.bbs_map(), entry, k) as int) == cached_ops_of(
                cctx.ops_map(),
                f.insts_of(order@[k]),
                f.insts_of(order@[k]).len(),
            ) by {
                if k < idx {
                    let pb = placed_block(order@, bbs0, entry, k);
                    assert(pb == placed_block(order@, bbs2, entry, k)) by {
                        if k > 0 {
                            assert(m0.bbs_map().dom().contains(order@[k]));
                            assert(bbs2.dom().contains(order@[k]));
                        }
                    }
                    assert(c0.ops_of(pb as int) == cached_ops_of(m0.ops_map(), f.insts_of(order@[k]), f.insts_of(order@[k]).len()));
                    assert(c0b.block_ops@[pb as int] == c0.block_ops@[pb as int]);
                    assert(ctx.block_ops@[pb as int] == c1.block_ops@[pb as int]);
                    assert forall|j: int| 0 <= j < f.insts_of(order@[k]).len() implies
                        cctx.ops_map()[#[trigger] f.insts_of(order@[k])[j]] == m0.ops_map()[f.insts_of(order@[k])[j]] by {
                        let i = f.insts_of(order@[k])[j];
                        assert(insts_before(f, order@, idx as int).contains(i));
                        assert(m0.ops_map().dom().contains(i));
                        assert(m1.ops_map().dom().contains(i));
                        assert(cctx.ops_map().dom().contains(i));
                    }
                    assert(cached_ops_of(cctx.ops_map(), f.insts_of(order@[k]), f.insts_of(order@[k]).len())
                        =~= cached_ops_of(m0.ops_map(), f.insts_of(order@[k]), f.insts_of(order@[k]).len()));
                }
            }
            assert forall|k: int|
                1 <= k < idx + 1 implies cctx.bbs_map().contains_key(order@[k]) && #[trigger] placed_block(order@, cctx.bbs_map(), entry, k)
                >= old(ctx).blocks@.len() && block_created_in(*ctx, f, order@[k], placed_block(order@, cctx.bbs_map(), entry, k)) by {
                let pb = placed_block(order@, bbs2, entry, k);
                assert(m1.bbs_map().dom().contains(order@[k])) by {
                    if k < idx {
                        assert(m0.bbs_map().dom().contains(order@[k]));
                    }
                }
                assert(bbs2.dom().contains(order@[k]));
                if k < idx {
                    assert(pb == placed_block(order@, bbs0, entry, k));
                    assert(m0.bbs_map().dom().contains(order@[k]));
                    assert(block_created_in(c0, f, order@[k], pb));
                    assert(c0b.blocks@[pb as int] == c0.blocks@[pb as int]);
                    assert(ctx.blocks@[pb as int] == c1.blocks@[pb as int]);
                } else {
                    assert(ctx.blocks@[bb as int] == c0b.blocks@[bb as int]);
                }
            }
            assert forall|i: u32| #[trigger] insts_before(f, order@, idx + 1).contains(i) implies cctx.cached_insts().contains(i) by {
                if insts_before(f, order@, idx as int).contains(i) {
                    assert(m0.ops_map().dom().contains(i));
                    assert(m1.ops_map().dom().contains(i));
                } else {
                    assert(f.insts_of(block).to_set().contains(i));
                    let j = choose|j: int| 0 <= j < f.insts_of(block).len() && f.insts_of(block)[j] == i;
                    assert(cctx.ops_map().contains_key(f.insts_of(block)[j]));
                }
            }
            assert forall|k: int| 0 <= k < idx + 1 implies cctx.cached_blocks().contains(#[trigger] order@[k]) by {
                if k < idx {
                    assert(m0.bbs_map().dom().contains(order@[k]));
                }
                assert(m1.bbs_map().dom().contains(order@[k]));
            }
            if ready {
                assert(cctx.cached_insts() =~= old(cctx).cached_insts().union(insts_before(f, order@, idx + 1)));
            }
            assert forall|i: u32|
                #[trigger] insts_before(f, order@, n).contains(i) && !insts_before(f, order@, idx + 1).contains(i)
                && cctx.ops_map().contains_key(i) implies ctx.op_parent@[cctx.ops_map()[i] as int] is None by {
                assert(todo.contains(i));
                assert(!f.insts_of(block).contains(i)) by {
                    if f.insts_of(block).contains(i) {
                        let j = choose|j: int| 0 <= j < f.insts_of(block).len() && f.insts_of(block)[j] == i;
                        assert(f.insts_of(block).to_set().contains(i));
                    }
                }
            }
            assert forall|o: int| 0 <= o < old(ctx).ops@.len() implies #[trigger] ctx.op_parent@[o] == old(ctx).op_parent@[o] by {
                assert(c0b.op_parent@[o] == c0.op_parent@[o]);
                assert(c1.op_parent@[o] == c0b.op_parent@[o]);
                if c1.op_parent@[o] is None && ctx.op_parent@[o] is Some {
                    assert(ctx.op_parent@[o] == Some(bb));
                    assert(ctx.ops_of(bb as int).contains(o as usize));
                    let w = choose|w: int| 0 <= w < ctx.ops_of(bb as int).len() && ctx.ops_of(bb as int)[w] == o as usize;
                    let i = f.insts_of(block)[w];
                    assert(cctx.ops_map()[i] == o);
                    lemma_order_inst_fresh(f, order@, idx as int, w);
                    assert(!old(cctx).ops_map().contains_key(i));
                    assert(cctx.ops_map().contains_key(i));
                    assert(false);
                }
            }
            assert forall|b: int|
                0 <= b < old(ctx).blocks@.len() && b != entry implies #[trigger] ctx.block_ops@[b] == old(ctx).block_ops@[b] by {
                assert(c0b.block_ops@[b] == c0.block_ops@[b]);
                if idx > 0 {
                    assert(bb >= old(ctx).blocks@.len());
                }
                assert(ctx.block_ops@[b] == c1.block_ops@[b]);
            }
            assert forall|b: int| 0 <= b < old(ctx).blocks@.len() implies #[trigger] ctx.block_parent@[b] == old(ctx).block_parent@[b] by {
                assert(c0b.block_ops@[b] == c0.block_ops@[b]);
                assert(c0b.block_parent@[b] == c0.block_parent@[b]);
                if idx > 0 {
                    assert(bb >= old(ctx).blocks@.len());
                }
                assert(c1.block_parent@[b] == c0b.block_parent@[b]);
                assert(ctx.block_parent@[b] == c1.block_parent@[b]);
            }
            let pl2 = placed_blocks(order@, bbs2, entry, idx + 1);
            let pl0 = placed_blocks(order@, bbs0, entry, idx as int);
            assert forall|b: int|
                old(ctx).blocks@.len() <= b < ctx.blocks@.len() && !pl2.contains(b as usize)
                implies (#[trigger] ctx.block_ops@[b])@.len() == 0 && ctx.block_parent@[b] is None by {
                assert(b != bb) by {
                    assert(pl2[idx as int] == bb);
                }
                if b < c0.blocks@.len() {
                    assert(!pl0.contains(b as usize)) by {
                        if pl0.contains(b as usize) {
                            let k = choose|k: int| 0 <= k < pl0.len() && pl0[k] == b as usize;
                            if k > 0 {
                                assert(m0.bbs_map().dom().contains(order@[k]));
                                assert(bbs2.dom().contains(order@[k]));
                            }
                            assert(pl2[k] == pl0[k]);
                        }
                    }
                    assert(c0.block_ops@[b]@.len() == 0);
                    assert(c0.block_parent@[b] is None);
                    assert(c0b.block_ops@[b] == c0.block_ops@[b]);
                    assert(c0b.block_parent@[b] == c0.block_parent@[b]);
                    assert(ctx.block_ops@[b] == c1.block_ops@[b]);
                } else if b < c1.blocks@.len() {
                    assert(c0b.block_ops@[b]@.len() == 0 && c0b.block_parent@[b] is None);
                    assert(ctx.block_ops@[b] == c1.block_ops@[b]);
                } else {
                    assert(ctx.block_ops@[b]@.len() == 0);
                }
            }
            assert forall|r: int|
                0 <= r < old(ctx).regions@.len() && r != region implies #[trigger] ctx.region_blocks@[r]
                == old(ctx).region_blocks@[r] by {
                assert(c0b.region_blocks@[r] == c0.region_blocks@[r]);
                assert(c1.region_blocks@[r] == c0b.region_blocks@[r]);
            }
            if ready {
                assert forall|o: int| old(ctx).ops@.len() <= o < ctx.ops@.len() implies (#[trigger] ctx.op_parent@[o]) is Some by {
                    if o < c0.ops@.len() {
                        assert(c0.op_parent@[o] is Some);
                        assert(c0b.op_parent@[o] == c0.op_parent@[o]);
                        assert(c1.op_parent@[o] == c0b.op_parent@[o]);
                        assert(ctx.op_parent@[o] == c1.op_parent@[o]);
                    }
                }
                assert forall|b: int| old(ctx).blocks@.len() <= b < ctx.blocks@.len() implies (#[trigger] ctx.block_parent@[b]) is Some by {
                    if b < c0.blocks@.len() {
                        assert(c0.block_parent@[b] is Some);
                        assert(c0b.block_ops@[b] == c0.block_ops@[b]);
                        assert(c0b.block_parent@[b] == c0.block_parent@[b]);
                        if idx > 0 {
                            assert(b != bb);
                        }
                        assert(c1.block_parent@[b] == c0b.block_parent@[b]);
                        assert(ctx.block_parent@[b] == c1.block_parent@[b]);
                    } else {
                        assert(idx > 0 && b == bb);
                        assert(c1.block_parent@[b] is Some);
                        assert(ctx.block_parent@[b] == c1.block_parent@[b]);
                    }
                }
            }
        }
        idx = idx + 1;
    }
    proof {
        assert(order@.subrange(0, idx as int) =~= order@);
        if ready {
            assert(cctx.cached_blocks() =~= old(cctx).cached_blocks().union(order@.to_set()));
        }
    }
}

/// The set holding the entry block of `f`, if it has one.
pub open spec fn entry_set(f: &ClifFunction) -> Set<u32> {
    match f.entry_block {
        Some(b) => set![b],
        None => Set::empty(),
    }
}

/// The instructions of the layout can be converted with the instructions `ci` and the
/// blocks `cb` cached: some ranked set of convertible instructions holds them all.
pub open spec fn layout_convertible(f: &ClifFunction, ci: Set<u32>, cb: Set<u32>) -> bool {
    convertible(f, ci, cb, insts_before(f, f.layout@, f.layout@.len() as int))
}

/// What [`convert_function`] and [`convert_function_w_rpo`] require in common: `f` is
/// well formed, its signature has only `i32` types, its name can lose its first byte,
/// the context can take one more region, and `cctx` suits `ctx` and `f`.
pub open spec fn function_ok(ctx: &Context, cctx: &ConversionCtx, f: &ClifFunction) -> bool {
    &&& ctx.wf()
    &&& f.wf()
    &&& cctx.inv(ctx, f)
    &&& ctx.regions@.len() < usize::MAX
    &&& f.signature_i32()
    &&& f.name_droppable()
}

/// The shape of the function `func` created in `new_ctx` from `f`, with `new_cctx` the
/// conversion context afterwards: its name and type, its entry block, and the common
/// bookkeeping of the conversion context.
pub open spec fn function_created(
    old_ctx: &Context,
    new_ctx: &Context,
    old_cctx: &ConversionCtx,
    new_cctx: &ConversionCtx,
    f: &ClifFunction,
    fo: usize,
) -> bool {
    let region = old_ctx.regions.len();
    let entry = old_ctx.blocks.len();
    &&& new_ctx.wf()
    &&& new_ctx.extends(old_ctx)
    &&& new_cctx.inv(new_ctx, f)
    &&& fo == old_ctx.ops@.len()
    &&& new_ctx.regions@.len() == old_ctx.regions@.len() + 1
    &&& new_ctx.ops@[fo as int].kind == OpKind::Func
    &&& new_ctx.ops@[fo as int].operands@.len() == 0
    &&& new_ctx.ops@[fo as int].regions@ == seq![region]
    &&& new_ctx.ops@[fo as int].attrs matches Some(a) && a.sym_name@ == f.name@.skip(1)
        && a.func_type.inputs@ == si32s(f.params@.len()) && a.func_type.results@ == si32s(
        f.returns@.len(),
    )
    &&& new_ctx.blocks@[entry as int].label matches Some(l) && l@ == "entry"@
    &&& new_ctx.blocks@[entry as int].arg_types@ == si32s(f.params@.len())
    &&& new_cctx.spec_entry_block() == Some(entry)
    &&& new_cctx.spec_func_op() == Some(fo)
    &&& new_cctx.spec_regs() == old_cctx.spec_regs().push(region)
    &&& old_cctx.op_src().submap_of(new_cctx.op_src())
    &&& old_cctx.block_src().submap_of(new_cctx.block_src())
    &&& forall|o: int| 0 <= o < old_ctx.ops@.len() ==> #[trigger] new_ctx.op_parent@[o] == old_ctx.op_parent@[o]
    &&& forall|b: int|
        0 <= b < old_ctx.blocks@.len() ==> #[trigger] new_ctx.block_ops@[b] == old_ctx.block_ops@[b]
            && new_ctx.block_parent@[b] == old_ctx.block_parent@[b]
    &&& forall|r: int|
        0 <= r < old_ctx.regions@.len() ==> #[trigger] new_ctx.region_blocks@[r] == old_ctx.region_blocks@[r]
}

/// The walk in `order` cached exactly the instructions and blocks it went through.
pub open spec fn walk_cached_exactly(
    old_cctx: &ConversionCtx,
    new_cctx: &ConversionCtx,
    f: &ClifFunction,
    order: Seq<u32>,
) -> bool {
    &&& new_cctx.cached_insts() == old_cctx.cached_insts().union(insts_before(f, order, order.len() as int))
    &&& new_cctx.cached_blocks() == old_cctx.cached_blocks().union(order.to_set())
}

/// Every argument of an instruction of the blocks of `order` is defined by an instruction
/// of those blocks or is a parameter of one of them.
pub open spec fn defs_in_order(f: &ClifFunction, order: Seq<u32>) -> bool {
    forall|i: u32, m: int|
        insts_before(f, order, order.len() as int).contains(i) && 0 <= m < f.args_of(i).len() ==> match f.def_of(
            #[trigger] f.args_of(i)[m],
        ) {
            ValueDef::Result(i2, _) => insts_before(f, order, order.len() as int).contains(i2),
            ValueDef::Param(b, _) => order.contains(b),
            ValueDef::Union(..) => true,
        }
}

/// When the definitions of the walk lie in the walk, the ranked set of instructions to
/// convert can be narrowed to the instructions of the walk.
proof fn lemma_closure_restrict(
    f: &ClifFunction,
    order: Seq<u32>,
    s: Set<u32>,
    rank: Map<u32, nat>,
    ci: Set<u32>,
    cb: Set<u32>,
)
    requires
        closure_ok(f, s, rank, ci, cb),
        insts_before(f, order, order.len() as int).subset_of(s),
        defs_in_order(f, order),
    ensures
        closure_ok(f, s.intersect(insts_before(f, order, order.len() as int)), rank, ci, cb),
{
    let all = insts_before(f, order, order.len() as int);
    let s2 = s.intersect(all);
    assert forall|i: u32| #[trigger] s2.contains(i) implies {
        &&& inst_ok(f, i)
        &&& rank.contains_key(i)
        &&& forall|j: int|
            0 <= j < f.args_of(i).len() ==> arg_ok(f, s2, rank, ci, cb, rank[i], #[trigger] f.args_of(i)[j])
    } by {
        assert(s.contains(i));
        assert forall|j: int| 0 <= j < f.args_of(i).len() implies arg_ok(f, s2, rank, ci, cb, rank[i], #[trigger] f.args_of(i)[j]) by {
            assert(arg_ok(f, s, rank, ci, cb, rank[i], f.args_of(i)[j]));
        }
    }
}

/// When the definitions of the layout lie in the layout, the layout conversion caches
/// exactly what the layout holds and places everything it creates.
proof fn lemma_defs_in_layout_exact(
    c0: &Context,
    c1: &Context,
    ctx: &Context,
    m0: &ConversionCtx,
    m1: &ConversionCtx,
    cctx: &ConversionCtx,
    f: &ClifFunction,
    s2: Set<u32>,
    fo: usize,
)
    requires
        f.wf(),
        ctx.wf(),
        m0.inv(c0, f),
        m1.inv(c1, f),
        c1.ops@.len() == c0.ops@.len() + 1,
        fo == c0.ops@.len(),
        c1.blocks@.len() == c0.blocks@.len() + 1,
        m1.ops_map() == m0.ops_map(),
        m1.bbs_map() == (match f.entry_block {
            Some(b) => m0.bbs_map().insert(b, c0.blocks.len()),
            None => m0.bbs_map(),
        }),
        cctx.cached_from(m1, c1.ops@.len() as nat, c1.blocks@.len() as nat),
        all_recorded(c1, ctx, cctx),
        forall|i: u32| #[trigger] cctx.ops_map().contains_key(i) && !m1.ops_map().contains_key(i) ==> s2.contains(i),
        forall|b: u32|
            #[trigger] cctx.bbs_map().contains_key(b) && !m1.bbs_map().contains_key(b) ==> f.layout@.contains(b)
                || arg_block_of(f, s2, b),
        s2.subset_of(insts_before(f, f.layout@, f.layout@.len() as int)),
        defs_in_order(f, f.layout@),
        function_converted(c0, ctx, m0, cctx, f, f.layout@, fo),
    ensures
        walk_cached_exactly(m0, cctx, f, f.layout@),
        all_placed(c0, ctx, fo),
{
    let n = f.layout@.len() as int;
    let all = insts_before(f, f.layout@, n);
    let entry = c0.blocks.len();
    let region = c0.regions.len();
    let bbs = cctx.bbs_map();
    // the instructions cached
    assert forall|i: u32| cctx.cached_insts().contains(i) implies m0.cached_insts().union(all).contains(i) by {
        if !m1.ops_map().contains_key(i) {
            assert(s2.contains(i));
        }
    }
    assert(cctx.cached_insts() =~= m0.cached_insts().union(all));
    // the blocks cached
    assert forall|b: u32| cctx.cached_blocks().contains(b) implies m0.cached_blocks().union(f.layout@.to_set()).contains(b) by {
        if !m1.bbs_map().contains_key(b) {
            if !f.layout@.contains(b) {
                assert(arg_block_of(f, s2, b));
                let (i, m) = choose|i: u32, m: int|
                    s2.contains(i) && 0 <= m < f.args_of(i).len() && (f.def_of(#[trigger] f.args_of(i)[m]) matches ValueDef::Param(
                        b2,
                        _,
                    ) && b2 == b);
                assert(all.contains(i));
            }
            assert(f.layout@.to_set().contains(b));
        } else if !m0.bbs_map().contains_key(b) {
            assert(f.entry_block == Some(b));
            assert(f.layout@[0] == b);
            assert(f.layout@.to_set().contains(b));
        }
    }
    assert forall|k: int| 0 <= k < n implies cctx.cached_blocks().contains(#[trigger] f.layout@[k]) by {}
    assert(cctx.cached_blocks() =~= m0.cached_blocks().union(f.layout@.to_set())) by {
        assert forall|b: u32| m0.cached_blocks().union(f.layout@.to_set()).contains(b) implies cctx.cached_blocks().contains(b) by {
            if m0.cached_blocks().contains(b) {
                assert(m0.bbs_map().dom().contains(b));
                if f.entry_block != Some(b) {
                    assert(m1.bbs_map().dom().contains(b));
                } else {
                    assert(m1.bbs_map().dom().contains(b));
                }
                assert(cctx.bbs_map().dom().contains(b));
            } else {
                let k = choose|k: int| 0 <= k < n && f.layout@[k] == b;
                assert(cctx.cached_blocks().contains(f.layout@[k]));
            }
        }
    }
    // every new operation but the function is placed
    assert forall|o: int| c0.ops@.len() <= o < ctx.ops@.len() && o != fo implies (#[trigger] ctx.op_parent@[o]) is Some by {
        assert(ctx.ops.len() == ctx.ops@.len());
        let ou = o as usize;
        assert(c1.ops@.len() <= ou < ctx.ops@.len());
        assert(cctx.op_src().contains_key(ou));
        assert(!m1.op_src().contains_key(ou)) by {
            if m1.op_src().contains_key(ou) {
                assert(ou < c1.ops@.len());
            }
        }
        assert(!m0.op_src().contains_key(ou)) by {
            if m0.op_src().contains_key(ou) {
                assert(ou < c0.ops@.len());
            }
        }
        let i = cctx.op_src()[ou];
        assert(cctx.ops_map().contains_key(i) && cctx.ops_map()[i] == ou);
        assert(!m0.ops_map().contains_key(i)) by {
            if m0.ops_map().contains_key(i) {
                assert(m1.ops_map().contains_key(i));
                assert(m1.ops_map().dom().contains(i));
                assert(cctx.ops_map().dom().contains(i));
                assert(m0.op_src().contains_key(m0.ops_map()[i]));
                assert(m0.ops_map()[i] < c0.ops@.len());
            }
        }
        assert(all.contains(i));
        let (k, j) = choose|k: int, j: int|
            0 <= k < n && 0 <= j < f.insts_of(f.layout@[k]).len() && #[trigger] f.insts_of(f.layout@[k])[j] == i;
        let pb = placed_block(f.layout@, bbs, entry, k);
        assert(ctx.ops_of(pb as int) == cached_ops_of(cctx.ops_map(), f.insts_of(f.layout@[k]), f.insts_of(f.layout@[k]).len()));
        assert(ctx.ops_of(pb as int)[j] == ou);
        assert(ctx.blocks_of(region as int) == placed_blocks(f.layout@, bbs, entry, n));
        assert(placed_blocks(f.layout@, bbs, entry, n)[k] == pb);
        assert(pb < ctx.blocks@.len());
        assert(ctx.op_parent@[ctx.ops_of(pb as int)[j] as int] == Some(pb));
    }
    // every new block is placed
    assert forall|b: int| c0.blocks@.len() <= b < ctx.blocks@.len() implies (#[trigger] ctx.block_parent@[b]) is Some by {
        let pl = placed_blocks(f.layout@, bbs, entry, n);
        assert(ctx.blocks_of(region as int) == pl);
        assert(region < ctx.regions@.len());
        if b == entry {
            assert(pl[0] == entry);
            assert(ctx.block_parent@[pl[0] as int] == Some(region));
        } else {
            assert(ctx.blocks.len() == ctx.blocks@.len());
            let bu = b as usize;
            assert(c1.blocks@.len() <= bu < ctx.blocks@.len());
            assert(cctx.block_src().contains_key(bu));
            assert(!m1.block_src().contains_key(bu)) by {
                if m1.block_src().contains_key(bu) {
                    assert(bu < c1.blocks@.len());
                }
            }
            assert(!m0.block_src().contains_key(bu)) by {
                if m0.block_src().contains_key(bu) {
                    assert(bu < c0.blocks@.len());
                }
            }
            let cb = cctx.block_src()[bu];
            assert(bbs.contains_key(cb) && bbs[cb] == bu);
            assert(f.layout@.to_set().contains(cb)) by {
                if !f.layout@.to_set().contains(cb) {
                    assert(m0.cached_blocks().contains(cb));
                    assert(f.entry_block != Some(cb)) by {
                        if f.entry_block == Some(cb) {
                            assert(f.layout@[0] == cb);
                        }
                    }
                    assert(m1.bbs_map().dom().contains(cb));
                    assert(bbs.dom().contains(cb));
                    assert(m0.bbs_map()[cb] == bbs[cb]);
                    assert(m0.block_src().contains_key(m0.bbs_map()[cb]));
                }
            }
            let k = choose|k: int| 0 <= k < n && f.layout@[k] == cb;
            assert(k != 0) by {
                if k == 0 {
                    assert(bbs[f.layout@[0]] == entry);
                }
            }
            assert(pl[k] == bu);
            assert(ctx.block_parent@[pl[k] as int] == Some(region));
        }
    }
}

/// Every operation created from `old_ctx` to `new_ctx` but the function operation `fo`
/// is placed in a block, and every block created is placed in a region.
pub open spec fn all_placed(old_ctx: &Context, new_ctx: &Context, fo: usize) -> bool {
    &&& forall|o: int|
        old_ctx.ops@.len() <= o < new_ctx.ops@.len() && o != fo ==> (#[trigger] new_ctx.op_parent@[o]) is Some
    &&& forall|b: int|
        old_ctx.blocks@.len() <= b < new_ctx.blocks@.len() ==> (#[trigger] new_ctx.block_parent@[b]) is Some
}

/// The function `fo` created in `new_ctx` from `f` by converting the blocks of `order`,
/// with `new_cctx` the conversion context afterwards: its body holds the entry block and
/// then one new block per further block of `order`, in that order, labelled as Cranelift
/// displays it; each block holds the cached operations of its instructions, in order;
/// the blocks of `order` and their instructions are cached, and earlier cache entries
/// of instructions keep their operations.
pub open spec fn function_converted(
    old_ctx: &Context,
    new_ctx: &Context,
    old_cctx: &ConversionCtx,
    new_cctx: &ConversionCtx,
    f: &ClifFunction,
    order: Seq<u32>,
    fo: usize,
) -> bool {
    let entry = old_ctx.blocks.len();
    let region = old_ctx.regions.len();
    let bbs = new_cctx.bbs_map();
    let n = order.len() as int;
    &&& function_created(old_ctx, new_ctx, old_cctx, new_cctx, f, fo)
    &&& new_ctx.blocks_of(region as int) == placed_blocks(order, bbs, entry, n)
    &&& forall|k: int|
        0 <= k < n ==> #[trigger] new_ctx.ops_of(placed_block(order, bbs, entry, k) as int) == cached_ops_of(
            new_cctx.ops_map(),
            f.insts_of(order[k]),
            f.insts_of(order[k]).len(),
        )
    &&& forall|k: int|
        1 <= k < n ==> bbs.contains_key(order[k]) && #[trigger] placed_block(order, bbs, entry, k) > entry
            && block_created_in(*new_ctx, f, order[k], placed_block(order, bbs, entry, k))
    &&& n > 0 ==> bbs.contains_key(order[0]) && bbs[order[0]] == entry
    &&& forall|i: u32| #[trigger] insts_before(f, order, n).contains(i) ==> new_cctx.cached_insts().contains(i)
    &&& forall|k: int| 0 <= k < n ==> new_cctx.cached_blocks().contains(#[trigger] order[k])
    &&& forall|o: usize|
        #[trigger] new_cctx.op_src().contains_key(o) && !old_cctx.op_src().contains_key(o) ==> new_cctx.ops_map().contains_key(
            new_cctx.op_src()[o],
        ) && new_cctx.ops_map()[new_cctx.op_src()[o]] == o
    &&& forall|bb: usize|
        #[trigger] new_cctx.block_src().contains_key(bb) && !old_cctx.block_src().contains_key(bb)
            ==> new_cctx.bbs_map().contains_key(new_cctx.block_src()[bb]) && new_cctx.bbs_map()[new_cctx.block_src()[bb]] == bb
    &&& operands_cached(new_ctx, f, old_cctx, new_cctx)
    &&& forall|i: u32| #[trigger]
        old_cctx.ops_map().contains_key(i) ==> new_cctx.ops_map()[i] == old_cctx.ops_map()[i]
    &&& forall|b: u32|
        #[trigger] old_cctx.bbs_map().contains_key(b) && f.entry_block != Some(b) ==> new_cctx.bbs_map()[b]
            == old_cctx.bbs_map()[b]
    &&& n == 0 ==> new_ctx.ops_of(entry as int).len() == 0
}

/// In a converted function, the operation at position `j` of the block converted from
/// position `k` of `order` stands for instruction `j` of that Cranelift block and is a
/// faithful conversion of it: its kind matches the opcode and its operands stand for
/// the instruction's arguments.
pub proof fn lemma_converted_ops_faithful(
    old_ctx: &Context,
    new_ctx: &Context,
    old_cctx: &ConversionCtx,
    new_cctx: &ConversionCtx,
    f: &ClifFunction,
    order: Seq<u32>,
    fo: usize,
    k: int,
    j: int,
)
    requires
        function_converted(old_ctx, new_ctx, old_cctx, new_cctx, f, order, fo),
        0 <= k < order.len(),
        0 <= j < f.insts_of(order[k]).len(),
    ensures
        ({
            let o = new_ctx.ops_of(placed_block(order, new_cctx.bbs_map(), old_ctx.blocks.len(), k) as int)[j];
            &&& new_cctx.op_src().contains_key(o)
            &&& new_cctx.op_src()[o] == f.insts_of(order[k])[j]
            &&& faithful_op(new_ctx, f, new_cctx.op_src(), new_cctx.block_src(), o)
        }),
{
    let bbs = new_cctx.bbs_map();
    let entry = old_ctx.blocks.len();
    let insts = f.insts_of(order[k]);
    let i = insts[j];
    assert(new_ctx.ops_of(placed_block(order, bbs, entry, k) as int) == cached_ops_of(
        new_cctx.ops_map(),
        insts,
        insts.len(),
    ));
    assert(insts_before(f, order, order.len() as int).contains(i));
    assert(new_cctx.cached_insts().contains(i));
    assert(new_cctx.ops_map().contains_key(i));
}

/// Operands are the cached values: in a function converted from a conversion context in
/// which every recorded operation stands for a cached instruction, every placed operation
/// of an instruction that was not cached before has as operands the cached operation
/// results and block arguments of the definitions of its arguments.
pub proof fn lemma_placed_operands_cached(
    old_ctx: &Context,
    new_ctx: &Context,
    old_cctx: &ConversionCtx,
    new_cctx: &ConversionCtx,
    f: &ClifFunction,
    order: Seq<u32>,
    fo: usize,
    k: int,
    j: int,
)
    requires
        function_converted(old_ctx, new_ctx, old_cctx, new_cctx, f, order, fo),
        forall|o: usize| #[trigger] old_cctx.op_src().contains_key(o) ==> old_cctx.cached_insts().contains(old_cctx.op_src()[o]),
        0 <= k < order.len(),
        0 <= j < f.insts_of(order[k]).len(),
        !old_cctx.cached_insts().contains(f.insts_of(order[k])[j]),
    ensures
        ({
            let o = new_ctx.ops_of(placed_block(order, new_cctx.bbs_map(), old_ctx.blocks.len(), k) as int)[j];
            let i = f.insts_of(order[k])[j];
            &&& o == new_cctx.ops_map()[i]
            &&& new_ctx.ops@[o as int].operands@ == cached_operands(f, new_cctx.ops_map(), new_cctx.bbs_map(), i)
        }),
{
    let bbs = new_cctx.bbs_map();
    let entry = old_ctx.blocks.len();
    let insts = f.insts_of(order[k]);
    let i = insts[j];
    let o = new_ctx.ops_of(placed_block(order, bbs, entry, k) as int)[j];
    lemma_converted_ops_faithful(old_ctx, new_ctx, old_cctx, new_cctx, f, order, fo, k, j);
    assert(o == new_cctx.ops_map()[i]);
    assert(!old_cctx.op_src().contains_key(o)) by {
        if old_cctx.op_src().contains_key(o) {
            assert(function_created(old_ctx, new_ctx, old_cctx, new_cctx, f, fo));
            assert(old_cctx.op_src().dom().contains(o));
            assert(new_cctx.op_src().dom().contains(o));
            assert(old_cctx.op_src()[o] == new_cctx.op_src()[o]);
        }
    }
}

/// The two walks agree: two functions converted from the same state along the same
/// order, as the layout walk and the reverse post-order walk do when the two orders
/// coincide, have blocks of the same sizes, and at each position operations of the same
/// kind, standing for the same instruction, whose operands stand for the same Cranelift
/// values.
pub proof fn lemma_walks_agree(
    old_ctx: &Context,
    new1: &Context,
    new2: &Context,
    old_cctx: &ConversionCtx,
    c1: &ConversionCtx,
    c2: &ConversionCtx,
    f: &ClifFunction,
    order: Seq<u32>,
    fo1: usize,
    fo2: usize,
    k: int,
    j: int,
)
    requires
        function_converted(old_ctx, new1, old_cctx, c1, f, order, fo1),
        function_converted(old_ctx, new2, old_cctx, c2, f, order, fo2),
        0 <= k < order.len(),
        0 <= j < f.insts_of(order[k]).len(),
    ensures
        new1.blocks_of(old_ctx.regions.len() as int).len() == new2.blocks_of(old_ctx.regions.len() as int).len(),
        ({
            let entry = old_ctx.blocks.len();
            let b1 = placed_block(order, c1.bbs_map(), entry, k);
            let b2 = placed_block(order, c2.bbs_map(), entry, k);
            let o1 = new1.ops_of(b1 as int)[j];
            let o2 = new2.ops_of(b2 as int)[j];
            let i = f.insts_of(order[k])[j];
            &&& new1.ops_of(b1 as int).len() == new2.ops_of(b2 as int).len()
            &&& c1.op_src()[o1] == i && c2.op_src()[o2] == i
            &&& new1.ops@[o1 as int].kind == new2.ops@[o2 as int].kind
            &&& new1.ops@[o1 as int].result_types@ == new2.ops@[o2 as int].result_types@
            &&& new1.ops@[o1 as int].operands@.len() == new2.ops@[o2 as int].operands@.len()
            &&& forall|m: int|
                0 <= m < new1.ops@[o1 as int].operands@.len() ==> corresponds(
                    f,
                    c1.op_src(),
                    c1.block_src(),
                    #[trigger] new1.ops@[o1 as int].operands@[m],
                    f.args_of(i)[m],
                ) && corresponds(f, c2.op_src(), c2.block_src(), new2.ops@[o2 as int].operands@[m], f.args_of(i)[m])
        }),
{
    lemma_converted_ops_faithful(old_ctx, new1, old_cctx, c1, f, order, fo1, k, j);
    lemma_converted_ops_faithful(old_ctx, new2, old_cctx, c2, f, order, fo2, k, j);
}

/// Each instruction is placed once: in a converted function whose walk lists each block
/// and each instruction once, distinct positions of the walk hold distinct operations.
pub proof fn lemma_placed_ops_distinct(
    old_ctx: &Context,
    new_ctx: &Context,
    old_cctx: &ConversionCtx,
    new_cctx: &ConversionCtx,
    f: &ClifFunction,
    order: Seq<u32>,
    fo: usize,
    k1: int,
    j1: int,
    k2: int,
    j2: int,
)
    requires
        f.blocks_unique(order),
        function_converted(old_ctx, new_ctx, old_cctx, new_cctx, f, order, fo),
        0 <= k1 < order.len(),
        0 <= j1 < f.insts_of(order[k1]).len(),
        0 <= k2 < order.len(),
        0 <= j2 < f.insts_of(order[k2]).len(),
        k1 != k2 || j1 != j2,
    ensures
        new_ctx.ops_of(placed_block(order, new_cctx.bbs_map(), old_ctx.blocks.len(), k1) as int)[j1]
            != new_ctx.ops_of(placed_block(order, new_cctx.bbs_map(), old_ctx.blocks.len(), k2) as int)[j2],
{
    lemma_converted_ops_faithful(old_ctx, new_ctx, old_cctx, new_cctx, f, order, fo, k1, j1);
    lemma_converted_ops_faithful(old_ctx, new_ctx, old_cctx, new_cctx, f, order, fo, k2, j2);
    assert(f.insts_of(order[k1])[j1] != f.insts_of(order[k2])[j2]);
}

/// A block created by a conversion that placed everything it created is one of the
/// blocks of the function body.
proof fn lemma_new_block_position(
    old_ctx: &Context,
    new_ctx: &Context,
    old_cctx: &ConversionCtx,
    new_cctx: &ConversionCtx,
    f: &ClifFunction,
    order: Seq<u32>,
    fo: usize,
    b: int,
)
    requires
        old_ctx.wf(),
        function_converted(old_ctx, new_ctx, old_cctx, new_cctx, f, order, fo),
        all_placed(old_ctx, new_ctx, fo),
        order.len() > 0,
        old_ctx.blocks@.len() <= b < new_ctx.blocks@.len(),
    ensures
        exists|k: int|
            0 <= k < order.len() && #[trigger] placed_block(order, new_cctx.bbs_map(), old_ctx.blocks.len(), k)
                == b,
{
    let region = old_ctx.regions.len() as int;
    assert(new_ctx.blocks@.len() == new_ctx.blocks.len());
    let r = new_ctx.block_parent@[b]->0 as int;
    assert(new_ctx.blocks_of(r).contains(b as usize));
    if r < old_ctx.regions@.len() {
        assert(new_ctx.region_blocks@[r] == old_ctx.region_blocks@[r]);
        let i = choose|i: int| 0 <= i < old_ctx.blocks_of(r).len() && old_ctx.blocks_of(r)[i] == b as usize;
        assert(old_ctx.blocks_of(r)[i] < old_ctx.blocks@.len());
    }
    let pl = placed_blocks(order, new_cctx.bbs_map(), old_ctx.blocks.len(), order.len() as int);
    let k = choose|k: int| 0 <= k < pl.len() && pl[k] == b as usize;
    assert(placed_block(order, new_cctx.bbs_map(), old_ctx.blocks.len(), k) == b);
}

/// An operation created by a conversion that placed everything it created, but the
/// function operation, is one of the operations of the blocks of the function body.
proof fn lemma_new_op_position(
    old_ctx: &Context,
    new_ctx: &Context,
    old_cctx: &ConversionCtx,
    new_cctx: &ConversionCtx,
    f: &ClifFunction,
    order: Seq<u32>,
    fo: usize,
    o: int,
)
    requires
        old_ctx.wf(),
        function_converted(old_ctx, new_ctx, old_cctx, new_cctx, f, order, fo),
        all_placed(old_ctx, new_ctx, fo),
        order.len() > 0,
        old_ctx.ops@.len() <= o < new_ctx.ops@.len(),
        o != fo,
    ensures
        exists|k: int, j: int|
            0 <= k < order.len() && 0 <= j < f.insts_of(order[k]).len() && #[trigger] new_ctx.ops_of(
                placed_block(order, new_cctx.bbs_map(), old_ctx.blocks.len(), k) as int,
            )[j] == o,
{
    assert(new_ctx.ops@.len() == new_ctx.ops.len());
    let b = new_ctx.op_parent@[o]->0 as int;
    assert(new_ctx.ops_of(b).contains(o as usize));
    if b < old_ctx.blocks@.len() {
        assert(new_ctx.block_ops@[b] == old_ctx.block_ops@[b]);
        let i = choose|i: int| 0 <= i < old_ctx.ops_of(b).len() && old_ctx.ops_of(b)[i] == o as usize;
        assert(old_ctx.ops_of(b)[i] < old_ctx.ops@.len());
    }
    lemma_new_block_position(old_ctx, new_ctx, old_cctx, new_cctx, f, order, fo, b);
    let bbs = new_cctx.bbs_map();
    let entry = old_ctx.blocks.len();
    let k = choose|k: int| 0 <= k < order.len() && #[trigger] placed_block(order, bbs, entry, k) == b;
    let l = new_ctx.ops_of(placed_block(order, bbs, entry, k) as int);
    assert(l == cached_ops_of(new_cctx.ops_map(), f.insts_of(order[k]), f.insts_of(order[k]).len()));
    let j = choose|j: int| 0 <= j < l.len() && l[j] == o as usize;
    assert(new_ctx.ops_of(placed_block(order, bbs, entry, k) as int)[j] == o);
}

/// Definitions come first: in a function converted into an empty context by a walk in
/// which every instruction is ready when its turn comes (as the reverse post-order
/// conversion requires, and as the layout conversion may find) and that placed everything
/// it created, every operand of the
/// operation at position `j` of block `k` is a result of an operation at an earlier
/// position of the walk, or an argument of a block at or before block `k`.
#[verifier::spinoff_prover]
pub proof fn lemma_definitions_before_uses(
    old_ctx: &Context,
    new_ctx: &Context,
    old_cctx: &ConversionCtx,
    new_cctx: &ConversionCtx,
    f: &ClifFunction,
    order: Seq<u32>,
    fo: usize,
    k: int,
    j: int,
    m: int,
)
    requires
        old_ctx.wf(),
        old_ctx.ops@.len() == 0,
        old_ctx.blocks@.len() == 0,
        f.wf(),
        f.blocks_unique(order),
        order.len() > 0 ==> f.entry_block == Some(order[0]),
        order_ready(f, order, Set::empty(), entry_set(f)),
        function_converted(old_ctx, new_ctx, old_cctx, new_cctx, f, order, fo),
        all_placed(old_ctx, new_ctx, fo),
        0 <= k < order.len(),
        0 <= j < f.insts_of(order[k]).len(),
        0 <= m < new_ctx.ops@[new_ctx.ops_of(placed_block(order, new_cctx.bbs_map(), 0, k) as int)[j] as int].operands@.len(),
    ensures
        ({
            let bbs = new_cctx.bbs_map();
            let op = new_ctx.ops@[new_ctx.ops_of(placed_block(order, bbs, 0, k) as int)[j] as int];
            match op.operands@[m] {
                Value::OpResult { op: d, .. } => exists|k2: int, j2: int|
                    0 <= k2 && 0 <= j2 < f.insts_of(order[k2]).len() && (k2 < k || (k2 == k && j2 < j))
                        && #[trigger] new_ctx.ops_of(placed_block(order, bbs, 0, k2) as int)[j2] == d,
                Value::BlockArgument { block, .. } => exists|k2: int|
                    0 <= k2 <= k && #[trigger] placed_block(order, bbs, 0, k2) == block,
            }
        }),
{
    let bbs = new_cctx.bbs_map();
    let os = new_cctx.op_src();
    let bs = new_cctx.block_src();
    let insts = f.insts_of(order[k]);
    let i = insts[j];
    let o = new_ctx.ops_of(placed_block(order, bbs, 0, k) as int)[j];
    lemma_converted_ops_faithful(old_ctx, new_ctx, old_cctx, new_cctx, f, order, fo, k, j);
    let a = f.args_of(i)[m];
    let v = new_ctx.ops@[o as int].operands@[m];
    assert(corresponds(f, os, bs, v, a));
    assert(block_ready(
        f,
        order[k],
        Set::<u32>::empty().union(insts_before(f, order, k)),
        entry_set(f).union(order.subrange(0, k + 1).to_set()),
    ));
    assert(arg_cached(
        f,
        Set::<u32>::empty().union(insts_before(f, order, k)).union(insts.subrange(0, j).to_set()),
        entry_set(f).union(order.subrange(0, k + 1).to_set()),
        a,
    ));
    match v {
        Value::OpResult { op: d, .. } => {
            lemma_result_operand_before(old_ctx, new_ctx, old_cctx, new_cctx, f, order, fo, k, j, a, d);
        },
        Value::BlockArgument { block, .. } => {
            lemma_block_operand_before(old_ctx, new_ctx, old_cctx, new_cctx, f, order, fo, k, a, block);
        },
    }
}

/// The operation `d` standing for the instruction defining `a`, which the walk converts
/// before position `j` of block `k`, sits before that position.
#[verifier::spinoff_prover]
proof fn lemma_result_operand_before(
    old_ctx: &Context,
    new_ctx: &Context,
    old_cctx: &ConversionCtx,
    new_cctx: &ConversionCtx,
    f: &ClifFunction,
    order: Seq<u32>,
    fo: usize,
    k: int,
    j: int,
    a: u32,
    d: usize,
)
    requires
        old_ctx.wf(),
        old_ctx.ops@.len() == 0,
        old_ctx.blocks@.len() == 0,
        f.wf(),
        f.blocks_unique(order),
        function_converted(old_ctx, new_ctx, old_cctx, new_cctx, f, order, fo),
        all_placed(old_ctx, new_ctx, fo),
        0 <= k < order.len(),
        0 <= j < f.insts_of(order[k]).len(),
        arg_cached(
            f,
            Set::<u32>::empty().union(insts_before(f, order, k)).union(f.insts_of(order[k]).subrange(0, j).to_set()),
            entry_set(f).union(order.subrange(0, k + 1).to_set()),
            a,
        ),
        f.def_of(a) is Result,
        new_cctx.op_src().contains_key(d),
        new_cctx.op_src()[d] == f.def_of(a)->Result_0,
    ensures
        exists|k2: int, j2: int|
            0 <= k2 && 0 <= j2 < f.insts_of(order[k2]).len() && (k2 < k || (k2 == k && j2 < j))
                && #[trigger] new_ctx.ops_of(placed_block(order, new_cctx.bbs_map(), 0, k2) as int)[j2] == d,
{
    let bbs = new_cctx.bbs_map();
    let os = new_cctx.op_src();
    let i2 = f.def_of(a)->Result_0;
    assert(faithful_op(new_ctx, f, os, new_cctx.block_src(), d));
    assert(d != fo);
    lemma_new_op_position(old_ctx, new_ctx, old_cctx, new_cctx, f, order, fo, d as int);
    let (k1, j1) = choose|k1: int, j1: int|
        0 <= k1 < order.len() && 0 <= j1 < f.insts_of(order[k1]).len() && #[trigger] new_ctx.ops_of(
            placed_block(order, bbs, 0, k1) as int,
        )[j1] == d;
    lemma_converted_ops_faithful(old_ctx, new_ctx, old_cctx, new_cctx, f, order, fo, k1, j1);
    assert(f.insts_of(order[k1])[j1] == i2);
    if insts_before(f, order, k).contains(i2) {
        let (k2, j2) = choose|k2: int, j2: int|
            0 <= k2 < k && 0 <= j2 < f.insts_of(order[k2]).len() && #[trigger] f.insts_of(order[k2])[j2] == i2;
        assert(k1 == k2 && j1 == j2);
    } else {
        let insts = f.insts_of(order[k]);
        assert(insts.subrange(0, j).to_set().contains(i2));
        let j2 = choose|j2: int| 0 <= j2 < j && #[trigger] insts.subrange(0, j)[j2] == i2;
        assert(insts[j2] == i2);
        assert(k1 == k && j1 == j2);
    }
}

/// The block standing for the block that defines `a`, which the walk reaches by block
/// `k`, sits at or before block `k`.
#[verifier::spinoff_prover]
proof fn lemma_block_operand_before(
    old_ctx: &Context,
    new_ctx: &Context,
    old_cctx: &ConversionCtx,
    new_cctx: &ConversionCtx,
    f: &ClifFunction,
    order: Seq<u32>,
    fo: usize,
    k: int,
    a: u32,
    block: usize,
)
    requires
        old_ctx.wf(),
        old_ctx.blocks@.len() == 0,
        f.wf(),
        f.blocks_unique(order),
        order.len() > 0 ==> f.entry_block == Some(order[0]),
        function_converted(old_ctx, new_ctx, old_cctx, new_cctx, f, order, fo),
        all_placed(old_ctx, new_ctx, fo),
        0 <= k < order.len(),
        f.def_of(a) is Param,
        (match f.def_of(a) {
            ValueDef::Param(b, _) => entry_set(f).union(order.subrange(0, k + 1).to_set()).contains(b),
            _ => true,
        }),
        new_cctx.block_src().contains_key(block),
        new_cctx.block_src()[block] == f.def_of(a)->Param_0,
    ensures
        exists|k2: int| 0 <= k2 <= k && #[trigger] placed_block(order, new_cctx.bbs_map(), 0, k2) == block,
{
    let bbs = new_cctx.bbs_map();
    let bs = new_cctx.block_src();
    let b = f.def_of(a)->Param_0;
    assert(block < new_ctx.blocks@.len());
    lemma_new_block_position(old_ctx, new_ctx, old_cctx, new_cctx, f, order, fo, block as int);
    let k1 = choose|k1: int| 0 <= k1 < order.len() && #[trigger] placed_block(order, bbs, 0, k1) == block;
    assert(bbs.contains_key(order[k1]) && bbs[order[k1]] == placed_block(order, bbs, 0, k1));
    assert(bs[bbs[order[k1]]] == order[k1]);
    assert(order[k1] == b);
    if entry_set(f).contains(b) {
        assert(b == order[0]);
        assert(k1 == 0) by {
            assert(order.no_duplicates());
        }
    } else {
        assert(order.subrange(0, k + 1).to_set().contains(b));
        let k2 = choose|k2: int| 0 <= k2 < k + 1 && #[trigger] order.subrange(0, k + 1)[k2] == b;
        assert(order[k2] == b);
        assert(k1 == k2) by {
            assert(order.no_duplicates());
        }
    }
}

/// Sets up the conversion of `f`: converts the signature, checks the name and creates
/// the function with its entry block, which stands for the entry block of `f`.
#[verifier::spinoff_prover]
fn create_function(ctx: &mut Context, cctx: &mut ConversionCtx, f: &ClifFunction) -> (r: Result<
    FuncOp,
    ConvertError,
>)
    requires
        function_ok(old(ctx), old(cctx), f),
    ensures
        r is Err <==> !is_identifier(f.name@.skip(1)),
        r matches Err(e) ==> (e matches ConvertError::InvalidIdentifier(n) && n@ == f.name@.skip(1))
            && *final(ctx) == *old(ctx) && *final(cctx) == *old(cctx),
        r matches Ok(func) ==> {
            let entry = old(ctx).blocks.len();
            let region = old(ctx).regions.len();
            &&& function_created(old(ctx), final(ctx), old(cctx), final(cctx), f, func.op)
            &&& final(ctx).blocks_of(region as int) == seq![entry]
            &&& final(ctx).ops_of(entry as int).len() == 0
            &&& final(ctx).ops@.len() == old(ctx).ops@.len() + 1
            &&& final(ctx).blocks@.len() == old(ctx).blocks@.len() + 1
            &&& final(ctx).regions@.len() == old(ctx).regions@.len() + 1
            &&& final(cctx).ops_map() == old(cctx).ops_map()
            &&& final(cctx).bbs_map() == (match f.entry_block {
                Some(b) => old(cctx).bbs_map().insert(b, entry),
                None => old(cctx).bbs_map(),
            })
            &&& final(cctx).op_src() == old(cctx).op_src()
            &&& final(cctx).block_src() == (match f.entry_block {
                Some(b) => old(cctx).block_src().insert(entry, b),
                None => old(cctx).block_src(),
            })
        },
{
    let name_str = f.name.as_str();
    let func_name = String::from_str(name_str.substring_char(1, name_str.unicode_len()));
    proof {
        assert(func_name@ =~= f.name@.skip(1));
    }
    let mut inputs: Vec<IntegerType> = Vec::new();
    let mut j: usize = 0;
    while j < f.params.len()
        invariant
            f.signature_i32(),
            j <= f.params@.len(),
            inputs@ == si32s(j as nat),
        decreases f.params@.len() - j,
    {
        inputs.push(convert_type(&f.params[j]));
        j = j + 1;
        proof {
            assert(inputs@ =~= si32s(j as nat));
        }
    }
    let mut results: Vec<IntegerType> = Vec::new();
    let mut j: usize = 0;
    while j < f.returns.len()
        invariant
            f.signature_i32(),
            j <= f.returns@.len(),
            results@ == si32s(j as nat),
        decreases f.returns@.len() - j,
    {
        results.push(convert_type(&f.returns[j]));
        j = j + 1;
        proof {
            assert(results@ =~= si32s(j as nat));
        }
    }
    let func_type = crate::ir::FunctionType { inputs, results };
    match identifier_try_new(&func_name) {
        Ok(_) => {},
        Err(_) => {
            return Err(ConvertError::InvalidIdentifier(func_name));
        },
    }
    let ghost old_ctx = *ctx;
    let func_op = FuncOp::new(ctx, func_name, func_type);
    let pliron_entry_blk = func_op.get_entry_block(ctx);
    let ghost mid_cctx = *cctx;
    match f.entry_block {
        Some(blk) => {
            cctx.cache_block(blk, pliron_entry_blk);
            cctx.record_block(Ghost(pliron_entry_blk), Ghost(blk));
        },
        None => {},
    }
    let region = func_op.get_region(ctx);
    cctx.set_function(func_op.get_operation(), region, pliron_entry_blk);
    proof {
        let entry = old_ctx.blocks.len();
        let os = cctx.op_src();
        let bs = cctx.block_src();
        let obs = mid_cctx.block_src();
        assert(pliron_entry_blk == entry);
        assert(!obs.contains_key(entry)) by {
            if obs.contains_key(entry) {
                assert(entry < old_ctx.blocks@.len());
            }
        }
        assert(obs.submap_of(bs));
        assert(os.submap_of(os));
        lemma_src_faithful_grow(&old_ctx, ctx, f, os, obs, os, bs);
        assert forall|bb: usize| #[trigger] bs.contains_key(bb) implies {
            &&& bb < ctx.blocks@.len()
            &&& bs[bb] < f.blocks@.len()
            &&& faithful_block(ctx, f, bs, bb)
        } by {
            if bb != entry {
                assert(obs.contains_key(bb));
            }
        }
        assert forall|o: usize| #[trigger] os.contains_key(o) implies {
            &&& o < ctx.ops@.len()
            &&& os[o] < f.insts@.len()
            &&& faithful_op(ctx, f, os, bs, o)
        } by {}
        assert forall|i: u32| #[trigger] cctx.ops_map().contains_key(i) implies {
            &&& cctx.op_src().contains_key(cctx.ops_map()[i])
            &&& cctx.op_src()[cctx.ops_map()[i]] == i
        } by {
            assert(mid_cctx.ops_map().contains_key(i));
        }
        assert forall|b: u32| #[trigger] cctx.bbs_map().contains_key(b) implies {
            &&& cctx.block_src().contains_key(cctx.bbs_map()[b])
            &&& cctx.block_src()[cctx.bbs_map()[b]] == b
        } by {
            if f.entry_block != Some(b) {
                assert(mid_cctx.bbs_map().contains_key(b));
                assert(obs.contains_key(mid_cctx.bbs_map()[b]));
            }
        }
        assert forall|k: int| 0 <= k < cctx.spec_regs().len() implies #[trigger] cctx.spec_regs()[k]
            < ctx.regions@.len() by {
            if k < mid_cctx.spec_regs().len() {
                assert(mid_cctx.spec_regs()[k] < old_ctx.regions@.len());
            }
        }
        assert forall|k: usize| #[trigger] obs.dom().contains(k) implies bs.dom().contains(k) && obs[k] == bs[k] by {}
        assert forall|b: int|
            0 <= b < old_ctx.blocks@.len() implies #[trigger] ctx.block_ops@[b] == old_ctx.block_ops@[b]
            && ctx.block_parent@[b] == old_ctx.block_parent@[b] by {}
    }
    Ok(func_op)
}

/// Converts Cranelift function `func` into a function of the IR.
///
/// The function is named after `func` without the first character of its displayed
/// name (`%add` becomes `add`); the name must be an identifier, else the conversion
/// fails and nothing changes.  Its type has one signed 32-bit integer per parameter and
/// per return of the signature, and its body holds one block per block of the layout, in
/// layout order: first the entry block, then, for each further block, a new block
/// labelled as Cranelift displays it.  Each block holds one operation per instruction,
/// in layout order; the definition of an argument that was not converted yet is
/// converted on demand and cached, and placed when the walk comes to it.  Every
/// instruction and block is converted once: each operation and block created is the
/// cached one of its Cranelift entity, every operand is the cached operation result or
/// block argument of its definition, and every operation created is a faithful
/// conversion of its instruction.  Where every argument is defined in the layout, or
/// where the layout defines every argument before its use, the walk caches exactly the
/// blocks and instructions of the layout, and every block and operation created, but the
/// function operation itself, is placed.  The layout conditions are asked only of a
/// function whose name is an identifier: otherwise the conversion fails before reading
/// the layout.
#[verifier::spinoff_prover]
pub fn convert_function(ctx: &mut Context, cctx: &mut ConversionCtx, func: &ClifFunction) -> (r: Result<
    FuncOp,
    ConvertError,
>)
    requires
        function_ok(old(ctx), old(cctx), func),
        is_identifier(func.name@.skip(1)) ==> {
            &&& func.layout_unique()
            &&& forall|k: int|
                1 <= k < func.layout@.len() ==> !old(cctx).cached_blocks().contains(#[trigger] func.layout@[k])
                    && func.block_params_i32(func.layout@[k])
            &&& forall|i: u32| #[trigger]
                insts_before(func, func.layout@, func.layout@.len() as int).contains(i) ==> !old(cctx).cached_insts().contains(i)
            &&& layout_convertible(func, old(cctx).cached_insts(), old(cctx).cached_blocks().union(entry_set(func)))
        },
    ensures
        r is Err <==> !is_identifier(func.name@.skip(1)),
        r matches Err(e) ==> (e matches ConvertError::InvalidIdentifier(n) && n@ == func.name@.skip(1))
            && *final(ctx) == *old(ctx) && *final(cctx) == *old(cctx),
        r matches Ok(fop) ==> function_converted(
            old(ctx),
            final(ctx),
            old(cctx),
            final(cctx),
            func,
            func.layout@,
            fop.op,
        ),
        r matches Ok(fop) ==> (order_ready(
            func,
            func.layout@,
            old(cctx).cached_insts(),
            old(cctx).cached_blocks().union(entry_set(func)),
        ) ==> all_placed(old(ctx), final(ctx), fop.op) && walk_cached_exactly(old(cctx), final(cctx), func, func.layout@)),
        r matches Ok(fop) ==> (defs_in_order(func, func.layout@) ==> all_placed(old(ctx), final(ctx), fop.op)
            && walk_cached_exactly(old(cctx), final(cctx), func, func.layout@)),
{
    let ghost c0 = *ctx;
    let ghost m0 = *cctx;
    let func_op = create_function(ctx, cctx, func)?;
    let ghost (s, rank) = choose|s: Set<u32>, rank: Map<u32, nat>|
        #[trigger] closure_ok(func, s, rank, m0.cached_insts(), m0.cached_blocks().union(entry_set(func)))
            && insts_before(func, func.layout@, func.layout@.len() as int).subset_of(s);
    let ghost defs = defs_in_order(func, func.layout@);
    let ghost s2 = if defs {
        s.intersect(insts_before(func, func.layout@, func.layout@.len() as int))
    } else {
        s
    };
    proof {
        if defs {
            lemma_closure_restrict(func, func.layout@, s, rank, m0.cached_insts(), m0.cached_blocks().union(entry_set(func)));
        }
    }
    let ghost c1 = *ctx;
    let ghost m1 = *cctx;
    let ghost region = c0.regions.len();
    proof {
        assert(m1.cached_blocks() =~= m0.cached_blocks().union(entry_set(func)));
        assert forall|k: int|
            1 <= k < func.layout@.len() implies !m1.cached_blocks().contains(#[trigger] func.layout@[k])
            && func.block_params_i32(func.layout@[k]) by {
            assert(func.layout@[k] != func.layout@[0]) by {
                assert(func.layout@.no_duplicates());
            }
        }
    }
    let ghost ready = order_ready(func, func.layout@, m1.cached_insts(), m1.cached_blocks());
    convert_and_link(ctx, func, cctx, &func.layout, false, Ghost(s2), Ghost(rank), Ghost(region), Ghost(ready));
    proof {
        if ready {
            let entry = c0.blocks.len();
            assert forall|o: int| c0.ops@.len() <= o < ctx.ops@.len() && o != func_op.op implies (#[trigger] ctx.op_parent@[o]) is Some by {
                assert(o >= c1.ops@.len());
            }
            assert forall|b: int| c0.blocks@.len() <= b < ctx.blocks@.len() implies (#[trigger] ctx.block_parent@[b]) is Some by {
                if b < c1.blocks@.len() {
                    assert(b == entry);
                    assert(c1.blocks_of(region as int)[0] == entry);
                    assert(c1.block_parent@[b] == Some(region));
                    assert(ctx.block_parent@[b] == c1.block_parent@[b]);
                }
            }
        }
    }
    proof {
        let entry = c0.blocks.len();
        lemma_extends_trans(c0, c1, *ctx);
        if func.layout@.len() > 0 {
            assert(m1.bbs_map().contains_key(func.layout@[0]));
            assert(func.layout@.to_set().contains(func.layout@[0]));
            assert(m0.cached_blocks().union(entry_set(func)).union(func.layout@.to_set())
                =~= m0.cached_blocks().union(func.layout@.to_set()));
        } else {
            assert(m0.cached_blocks().union(entry_set(func)).union(func.layout@.to_set())
                =~= m0.cached_blocks().union(func.layout@.to_set()));
        }
        assert forall|i: u32| #[trigger] m0.ops_map().contains_key(i) implies cctx.ops_map()[i] == m0.ops_map()[i] by {
            assert(m1.ops_map().contains_key(i));
            assert(m1.ops_map().dom().contains(i));
            assert(cctx.ops_map().dom().contains(i));
        }
        assert forall|b: u32| #[trigger] m0.bbs_map().contains_key(b) && func.entry_block != Some(b) implies cctx.bbs_map()[b]
            == m0.bbs_map()[b] by {
            assert(m1.bbs_map().contains_key(b));
            assert(m1.bbs_map()[b] == m0.bbs_map()[b]);
            assert(m1.bbs_map().dom().contains(b));
            assert(cctx.bbs_map().dom().contains(b));
        }
        assert(m1.spec_entry_block() == Some(entry));
        lemma_submap_of_trans(m0.op_src(), m1.op_src(), cctx.op_src());
        lemma_submap_of_trans(m0.block_src(), m1.block_src(), cctx.block_src());
        assert forall|o: int| 0 <= o < c0.ops@.len() implies #[trigger] ctx.op_parent@[o] == c0.op_parent@[o] by {
            assert(c1.op_parent@[o] == c0.op_parent@[o]);
        }
        assert forall|b: int|
            0 <= b < c0.blocks@.len() implies #[trigger] ctx.block_ops@[b] == c0.block_ops@[b]
            && ctx.block_parent@[b] == c0.block_parent@[b] by {
            assert(c1.block_ops@[b] == c0.block_ops@[b]);
            assert(b != entry);
            assert(ctx.block_ops@[b] == c1.block_ops@[b]);
        }
        assert forall|r: int| 0 <= r < c0.regions@.len() implies #[trigger] ctx.region_blocks@[r] == c0.region_blocks@[r] by {
            assert(c1.region_blocks@[r] == c0.region_blocks@[r]);
            assert(ctx.region_blocks@[r] == c1.region_blocks@[r]);
        }
        assert(ctx.ops@[func_op.op as int] == c1.ops@[func_op.op as int]);
        assert(ctx.blocks@[entry as int] == c1.blocks@[entry as int]);
    }
    proof {
        if defs {
            assert(s2.subset_of(insts_before(func, func.layout@, func.layout@.len() as int)));
            lemma_defs_in_layout_exact(&c0, &c1, ctx, &m0, &m1, cctx, func, s2, func_op.op);
        }
    }
    Ok(func_op)
}

/// Converts Cranelift function `func` into a function of the IR, walking its blocks in
/// reverse post-order.
///
/// The function is created as by [`convert_function`].  Its body holds one block per
/// block of the reverse post-order, in that order: first the entry block, then, for each
/// further block, a new block labelled as Cranelift displays it.  Each block holds one
/// operation per instruction, in layout order within the block.  Every argument of an
/// instruction is defined before it in this walk, so its definition is taken from the
/// cache; only additions and returns are converted.  Unreachable blocks are left out.
/// Every block and operation created, but the function operation itself, is placed; all
/// placed blocks and operations are cached, and every operation created is a faithful
/// conversion of its instruction.
#[verifier::spinoff_prover]
pub fn convert_function_w_rpo(ctx: &mut Context, cctx: &mut ConversionCtx, func: &ClifFunction) -> (r: Result<
    FuncOp,
    ConvertError,
>)
    requires
        function_ok(old(ctx), old(cctx), func),
        is_identifier(func.name@.skip(1)) ==> {
            &&& func.blocks_unique(func.rpo@)
            &&& forall|k: int|
                1 <= k < func.rpo@.len() ==> !old(cctx).cached_blocks().contains(#[trigger] func.rpo@[k])
                    && func.block_params_i32(func.rpo@[k])
            &&& forall|i: u32| #[trigger]
                insts_before(func, func.rpo@, func.rpo@.len() as int).contains(i) ==> !old(cctx).cached_insts().contains(i)
            &&& order_ready(func, func.rpo@, old(cctx).cached_insts(), old(cctx).cached_blocks().union(entry_set(func)))
        },
    ensures
        r is Err <==> !is_identifier(func.name@.skip(1)),
        r matches Err(e) ==> (e matches ConvertError::InvalidIdentifier(n) && n@ == func.name@.skip(1))
            && *final(ctx) == *old(ctx) && *final(cctx) == *old(cctx),
        r matches Ok(fop) ==> function_converted(
            old(ctx),
            final(ctx),
            old(cctx),
            final(cctx),
            func,
            func.rpo@,
            fop.op,
        ),
        r matches Ok(fop) ==> all_placed(old(ctx), final(ctx), fop.op),
        r matches Ok(fop) ==> walk_cached_exactly(old(cctx), final(cctx), func, func.rpo@),
{
    let ghost c0 = *ctx;
    let ghost m0 = *cctx;
    let func_op = create_function(ctx, cctx, func)?;
    let ghost c1 = *ctx;
    let ghost m1 = *cctx;
    let ghost region = c0.regions.len();
    proof {
        assert(m1.cached_blocks() =~= m0.cached_blocks().union(entry_set(func)));
        assert forall|k: int|
            1 <= k < func.rpo@.len() implies !m1.cached_blocks().contains(#[trigger] func.rpo@[k])
            && func.block_params_i32(func.rpo@[k]) by {
            assert(func.rpo@[k] != func.rpo@[0]) by {
                assert(func.rpo@.no_duplicates());
            }
        }
    }
    convert_and_link(ctx, func, cctx, &func.rpo, true, Ghost(Set::empty()), Ghost(Map::empty()), Ghost(region), Ghost(true));
    proof {
        let entry = c0.blocks.len();
        assert forall|o: int| c0.ops@.len() <= o < ctx.ops@.len() && o != func_op.op implies (#[trigger] ctx.op_parent@[o]) is Some by {
            assert(o >= c1.ops@.len());
        }
        assert forall|b: int| c0.blocks@.len() <= b < ctx.blocks@.len() implies (#[trigger] ctx.block_parent@[b]) is Some by {
            if b < c1.blocks@.len() {
                assert(b == entry);
                assert(c1.blocks_of(region as int)[0] == entry);
                assert(c1.block_parent@[b] == Some(region));
                assert(ctx.block_parent@[b] == c1.block_parent@[b]);
            }
        }
    }
    proof {
        let entry = c0.blocks.len();
        lemma_extends_trans(c0, c1, *ctx);
        if func.rpo@.len() > 0 {
            assert(m1.bbs_map().contains_key(func.rpo@[0]));
            assert(func.rpo@.to_set().contains(func.rpo@[0]));
            assert(m0.cached_blocks().union(entry_set(func)).union(func.rpo@.to_set())
                =~= m0.cached_blocks().union(func.rpo@.to_set()));
        } else {
            assert(m0.cached_blocks().union(entry_set(func)).union(func.rpo@.to_set())
                =~= m0.cached_blocks().union(func.rpo@.to_set()));
        }
        assert forall|i: u32| #[trigger] m0.ops_map().contains_key(i) implies cctx.ops_map()[i] == m0.ops_map()[i] by {
            assert(m1.ops_map().contains_key(i));
            assert(m1.ops_map().dom().contains(i));
            assert(cctx.ops_map().dom().contains(i));
        }
        assert forall|b: u32| #[trigger] m0.bbs_map().contains_key(b) && func.entry_block != Some(b) implies cctx.bbs_map()[b]
            == m0.bbs_map()[b] by {
            assert(m1.bbs_map().contains_key(b));
            assert(m1.bbs_map()[b] == m0.bbs_map()[b]);
            assert(m1.bbs_map().dom().contains(b));
            assert(cctx.bbs_map().dom().contains(b));
        }
        assert(m1.spec_entry_block() == Some(entry));
        lemma_submap_of_trans(m0.op_src(), m1.op_src(), cctx.op_src());
        lemma_submap_of_trans(m0.block_src(), m1.block_src(), cctx.block_src());
        assert forall|o: int| 0 <= o < c0.ops@.len() implies #[trigger] ctx.op_parent@[o] == c0.op_parent@[o] by {
            assert(c1.op_parent@[o] == c0.op_parent@[o]);
        }
        assert forall|b: int|
            0 <= b < c0.blocks@.len() implies #[trigger] ctx.block_ops@[b] == c0.block_ops@[b]
            && ctx.block_parent@[b] == c0.block_parent@[b] by {
            assert(c1.block_ops@[b] == c0.block_ops@[b]);
            assert(b != entry);
            assert(ctx.block_ops@[b] == c1.block_ops@[b]);
        }
        assert forall|r: int| 0 <= r < c0.regions@.len() implies #[trigger] ctx.region_blocks@[r] == c0.region_blocks@[r] by {
            assert(c1.region_blocks@[r] == c0.region_blocks@[r]);
            assert(ctx.region_blocks@[r] == c1.region_blocks@[r]);
        }
        assert(ctx.ops@[func_op.op as int] == c1.ops@[func_op.op as int]);
        assert(ctx.blocks@[entry as int] == c1.blocks@[entry as int]);
    }
    Ok(func_op)
}

} // verus!
