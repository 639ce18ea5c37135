//! What the conversion accepts, stated over the Cranelift function itself: which
//! instructions, signatures and names get past the checks, and which functions the
//! reverse post-order conversion converts.
use crate::clif::{ClifFunction, Opcode, ValueDef};
use crate::convert::{
    arg_cached, arg_ok, cached_operands, closure_ok, inst_ok, inst_ok_rpo, kind_of, lhs_ok,
    result_types_of,
};
use crate::driver::{head_supported, layout_supported, rpo_supported};
use crate::function::{block_ready, entry_set, insts_before, order_ready};
use crate::ir::OpKind;
use crate::names::{block_label_spec, is_identifier};
use vstd::prelude::*;

verus! {

/// A return of at most one value is accepted by both conversions, whatever its
/// argument; converted, a return with no value is a `clif.return` with no operands and
/// no results.
pub proof fn lemma_return_accepted(f: &ClifFunction, i: u32, ops: Map<u32, usize>, bbs: Map<u32, usize>)
    requires
        i < f.insts@.len(),
        f.opcode_of(i) == Opcode::Return,
        f.args_of(i).len() <= 1,
    ensures
        inst_ok(f, i),
        inst_ok_rpo(f, i),
        kind_of(f.opcode_of(i)) == OpKind::Return,
        result_types_of(f, i).len() == 0,
        cached_operands(f, ops, bbs, i).len() == f.args_of(i).len(),
        f.args_of(i).len() == 0 ==> cached_operands(f, ops, bbs, i).len() == 0,
{
}

/// The first argument of an addition or a multiplication has a type when it is any
/// parameter of a block, below the signature's parameter count for the entry block: any
/// such parameter is accepted, not only the first.
pub proof fn lemma_param_lhs_accepted(f: &ClifFunction, i: u32, b: u32, n: usize)
    requires
        i < f.insts@.len(),
        f.opcode_of(i) == Opcode::Iadd || f.opcode_of(i) == Opcode::Imul,
        f.args_of(i).len() >= 2,
        f.def_of(f.args_of(i)[0]) == ValueDef::Param(b, n),
        n < f.params_of(b).len(),
        f.entry_block == Some(b) ==> n < f.params@.len(),
    ensures
        lhs_ok(f, i),
        inst_ok(f, i),
        f.opcode_of(i) == Opcode::Iadd ==> inst_ok_rpo(f, i),
{
}

/// The first argument of an addition or a multiplication has a type when it is result 0
/// of any addition or multiplication, whatever the opcode of the instruction using it.
pub proof fn lemma_result_lhs_accepted(f: &ClifFunction, i: u32, i2: u32)
    requires
        i < f.insts@.len(),
        f.opcode_of(i) == Opcode::Iadd || f.opcode_of(i) == Opcode::Imul,
        f.args_of(i).len() >= 2,
        f.def_of(f.args_of(i)[0]) == ValueDef::Result(i2, 0),
        f.opcode_of(i2) == Opcode::Iadd || f.opcode_of(i2) == Opcode::Imul,
    ensures
        lhs_ok(f, i),
        inst_ok(f, i),
        f.opcode_of(i) == Opcode::Iadd ==> inst_ok_rpo(f, i),
{
}

/// Whether a first argument has a type depends only on what defines it: two additions or
/// multiplications whose first arguments have the same definition are both accepted or
/// both refused.
pub proof fn lemma_lhs_depends_on_definition(f: &ClifFunction, i: u32, i2: u32)
    requires
        f.args_of(i).len() >= 1,
        f.args_of(i2).len() >= 1,
        f.def_of(f.args_of(i)[0]) == f.def_of(f.args_of(i2)[0]),
    ensures
        lhs_ok(f, i) == lhs_ok(f, i2),
{
}

/// A signature whose parameter and return types are all `i32` is accepted, however many
/// there are.
pub proof fn lemma_i32_signature_accepted(f: &ClifFunction)
    requires
        forall|j: int| 0 <= j < f.params@.len() ==> (#[trigger] f.params@[j]).name@ == "types::I32"@,
        forall|j: int| 0 <= j < f.returns@.len() ==> (#[trigger] f.returns@[j]).name@ == "types::I32"@,
    ensures
        f.signature_i32(),
{
}

/// Acceptance of a signature does not depend on how many `i32` parameters it has: a
/// function and the same function with one more `i32` parameter are both accepted or
/// both refused.
pub proof fn lemma_signature_extra_param(f: &ClifFunction, g: &ClifFunction)
    requires
        g.params@.len() == f.params@.len() + 1,
        forall|j: int| 0 <= j < f.params@.len() ==> (#[trigger] g.params@[j]).name@ == f.params@[j].name@,
        g.params@[f.params@.len() as int].name@ == "types::I32"@,
        g.returns@.len() == f.returns@.len(),
        forall|j: int| 0 <= j < f.returns@.len() ==> (#[trigger] g.returns@[j]).name@ == f.returns@[j].name@,
    ensures
        g.signature_i32() == f.signature_i32(),
{
    if f.signature_i32() {
        assert forall|j: int| 0 <= j < g.params@.len() implies (#[trigger] g.params@[j]).name@ == "types::I32"@ by {
            if j < f.params@.len() {
                assert(f.params@[j].name@ == "types::I32"@);
            }
        }
    }
    if g.signature_i32() {
        assert forall|j: int| 0 <= j < f.params@.len() implies (#[trigger] f.params@[j]).name@ == "types::I32"@ by {
            assert(g.params@[j].name@ == "types::I32"@);
        }
        assert forall|j: int| 0 <= j < f.returns@.len() implies (#[trigger] f.returns@[j]).name@ == "types::I32"@ by {
            assert(g.returns@[j].name@ == "types::I32"@);
        }
    }
}

/// The name condition checked before the conversion depends only on the first character
/// of the name: every name whose first character is one byte gets past it, whatever
/// follows, and two names with the same first character are treated alike.
pub proof fn lemma_name_first_char(f: &ClifFunction, g: &ClifFunction)
    ensures
        f.name@.len() > 0 && (f.name@[0] as u32) < 128 ==> f.name_droppable(),
        f.name@.len() > 0 && g.name@.len() > 0 && f.name@[0] == g.name@[0] ==> f.name_droppable()
            == g.name_droppable(),
        f.name@.len() == 0 ==> !f.name_droppable(),
{
}

/// Both conversions read past the signature and the name of every well formed function
/// whose signature types are all `i32` and whose name starts with a one-byte character.
pub proof fn lemma_head_accepted(f: &ClifFunction)
    requires
        f.wf(),
        forall|j: int| 0 <= j < f.params@.len() ==> (#[trigger] f.params@[j]).name@ == "types::I32"@,
        forall|j: int| 0 <= j < f.returns@.len() ==> (#[trigger] f.returns@[j]).name@ == "types::I32"@,
        f.name@.len() > 0,
        (f.name@[0] as u32) < 128,
    ensures
        head_supported(f),
{
}

/// The identifiers pliron accepts are the nonempty strings of ASCII letters, digits and
/// `_` that do not start with a digit.
pub proof fn lemma_identifier_chars(s: Seq<char>)
    ensures
        is_identifier(s) <==> {
            &&& s.len() > 0
            &&& !(48 <= (s[0] as u32) <= 57)
            &&& forall|i: int|
                0 <= i < s.len() ==> (97 <= (#[trigger] s[i] as u32) <= 122) || (65 <= (s[i] as u32) <= 90) || (48
                    <= (s[i] as u32) <= 57) || s[i] == '_'
        },
{
    let rhs = {
        &&& s.len() > 0
        &&& !(48 <= (s[0] as u32) <= 57)
        &&& forall|i: int|
            0 <= i < s.len() ==> (97 <= (#[trigger] s[i] as u32) <= 122) || (65 <= (s[i] as u32) <= 90) || (48
                <= (s[i] as u32) <= 57) || s[i] == '_'
    };
    if is_identifier(s) {
        assert forall|i: int| 0 <= i < s.len() implies (97 <= (#[trigger] s[i] as u32) <= 122) || (65 <= (s[i] as u32)
            <= 90) || (48 <= (s[i] as u32) <= 57) || s[i] == '_' by {}
        if s[0] == '_' {
            assert((s[0] as u32) == 95);
        }
    }
    if rhs {
        assert(s[0] == '_' || (97 <= (s[0] as u32) <= 122) || (65 <= (s[0] as u32) <= 90));
        assert forall|i: int| 1 <= i < s.len() implies crate::names::is_ascii_alpha(#[trigger] s[i])
            || crate::names::is_ascii_digit(s[i]) || s[i] == '_' by {
            assert((97 <= (s[i] as u32) <= 122) || (65 <= (s[i] as u32) <= 90) || (48 <= (s[i] as u32) <= 57) || s[i] == '_');
        }
    }
}

/// Cranelift labels block `b` as `block` followed by `b` in decimal: appending a digit to
/// a nonzero number appends it to the label.
pub proof fn lemma_block_label_digits(b: nat, d: nat)
    requires
        d < 10,
    ensures
        block_label_spec(d) == "block"@.push((48 + d) as char),
        b > 0 ==> block_label_spec(10 * b + d) == block_label_spec(b).push((48 + d) as char),
{
    if b > 0 {
        assert((10 * b + d) / 10 == b) by (nonlinear_arith)
            requires
                d < 10,
        ;
        assert((10 * b + d) % 10 == d) by (nonlinear_arith)
            requires
                d < 10,
        ;
        assert(block_label_spec(10 * b + d) =~= block_label_spec(b).push((48 + d) as char));
    }
    assert(block_label_spec(d) =~= "block"@.push((48 + d) as char));
}

/// Instruction `i` of `f` is an addition of at least two arguments whose first is result 0
/// of an addition or multiplication, or a parameter of a block (below the signature's
/// parameter count for the entry block), or a return of at most one value.
pub open spec fn walk_inst(f: &ClifFunction, i: u32) -> bool {
    ||| f.opcode_of(i) == Opcode::Iadd && f.args_of(i).len() >= 2 && match f.def_of(f.args_of(i)[0]) {
        ValueDef::Result(i2, n) => n == 0 && (f.opcode_of(i2) == Opcode::Iadd || f.opcode_of(i2) == Opcode::Imul),
        ValueDef::Param(b, n) => n < f.params_of(b).len() && (f.entry_block == Some(b) ==> n < f.params@.len()),
        ValueDef::Union(..) => false,
    }
    ||| f.opcode_of(i) == Opcode::Return && f.args_of(i).len() <= 1
}

/// Value `a`, an argument of instruction `j` of block `k` of the reverse post-order, is
/// defined earlier in the walk: by an instruction of an earlier block or earlier in the
/// same block, or as a parameter of the entry block or of a block up to `k`.
pub open spec fn defined_before(f: &ClifFunction, k: int, j: int, a: u32) -> bool {
    &&& a < f.values@.len()
    &&& match f.def_of(a) {
        ValueDef::Result(i2, _) => insts_before(f, f.rpo@, k).contains(i2) || f.insts_of(f.rpo@[k]).subrange(
            0,
            j,
        ).contains(i2),
        ValueDef::Param(b, _) => f.entry_block == Some(b) || f.rpo@.subrange(0, k + 1).contains(b),
        ValueDef::Union(..) => false,
    }
}

/// The reverse post-order conversion accepts every well formed function whose signature
/// types are all `i32`, whose name starts with a one-byte character, whose walk lists each
/// block and instruction once with only `i32` parameters after the entry block, and whose
/// walk holds only additions and returns of at most one value, each argument defined
/// earlier in the walk.
pub proof fn lemma_rpo_accepts(f: &ClifFunction)
    requires
        f.wf(),
        forall|j: int| 0 <= j < f.params@.len() ==> (#[trigger] f.params@[j]).name@ == "types::I32"@,
        forall|j: int| 0 <= j < f.returns@.len() ==> (#[trigger] f.returns@[j]).name@ == "types::I32"@,
        f.name@.len() > 0,
        (f.name@[0] as u32) < 128,
        f.blocks_unique(f.rpo@),
        forall|k: int, j: int|
            1 <= k < f.rpo@.len() && 0 <= j < f.params_of(f.rpo@[k]).len() ==> (#[trigger] f.values@[f.params_of(
                f.rpo@[k],
            )[j] as int]).ty.name@ == "types::I32"@,
        forall|k: int, j: int|
            0 <= k < f.rpo@.len() && 0 <= j < f.insts_of(f.rpo@[k]).len() ==> {
                &&& f.insts_of(f.rpo@[k])[j] < f.insts@.len()
                &&& walk_inst(f, #[trigger] f.insts_of(f.rpo@[k])[j])
            },
        forall|k: int, j: int, m: int|
            0 <= k < f.rpo@.len() && 0 <= j < f.insts_of(f.rpo@[k]).len() && 0 <= m < f.args_of(
                f.insts_of(f.rpo@[k])[j],
            ).len() ==> defined_before(f, k, j, #[trigger] f.args_of(f.insts_of(f.rpo@[k])[j])[m]),
    ensures
        rpo_supported(f),
{
    lemma_head_accepted(f);
    assert forall|k: int| 1 <= k < f.rpo@.len() implies f.block_params_i32(#[trigger] f.rpo@[k]) by {
        assert forall|j: int| 0 <= j < f.params_of(f.rpo@[k]).len() implies (#[trigger] f.values@[f.params_of(
            f.rpo@[k],
        )[j] as int]).ty.name@ == "types::I32"@ by {
            assert(f.values@[f.params_of(f.rpo@[k])[j] as int].ty.name@ == "types::I32"@);
        }
    }
    let ci = Set::<u32>::empty();
    let cb = entry_set(f);
    assert forall|k: int| 0 <= k < f.rpo@.len() implies block_ready(
        f,
        #[trigger] f.rpo@[k],
        ci.union(insts_before(f, f.rpo@, k)),
        cb.union(f.rpo@.subrange(0, k + 1).to_set()),
    ) by {
        let insts = f.insts_of(f.rpo@[k]);
        assert forall|j: int| 0 <= j < insts.len() implies {
            &&& inst_ok_rpo(f, #[trigger] insts[j])
            &&& forall|m: int|
                0 <= m < f.args_of(insts[j]).len() ==> arg_cached(
                    f,
                    ci.union(insts_before(f, f.rpo@, k)).union(insts.subrange(0, j).to_set()),
                    cb.union(f.rpo@.subrange(0, k + 1).to_set()),
                    #[trigger] f.args_of(insts[j])[m],
                )
        } by {
            let i = insts[j];
            assert(i < f.insts@.len() && walk_inst(f, i));
            assert forall|m: int| 0 <= m < f.args_of(i).len() implies arg_cached(
                f,
                ci.union(insts_before(f, f.rpo@, k)).union(insts.subrange(0, j).to_set()),
                cb.union(f.rpo@.subrange(0, k + 1).to_set()),
                #[trigger] f.args_of(i)[m],
            ) by {
                let a = f.args_of(i)[m];
                assert(defined_before(f, k, j, f.args_of(f.insts_of(f.rpo@[k])[j])[m]));
                match f.def_of(a) {
                    ValueDef::Result(i2, _) => {
                        if insts.subrange(0, j).contains(i2) {
                            assert(insts.subrange(0, j).to_set().contains(i2));
                        }
                    },
                    ValueDef::Param(b, _) => {
                        if f.rpo@.subrange(0, k + 1).contains(b) {
                            assert(f.rpo@.subrange(0, k + 1).to_set().contains(b));
                        } else {
                            assert(cb.contains(b));
                        }
                    },
                    ValueDef::Union(..) => {},
                }
            }
        }
    }
    assert(order_ready(f, f.rpo@, Set::empty(), entry_set(f)));
}

/// Instruction `i` of `f` is an addition or a multiplication of at least two arguments
/// whose first is result 0 of an addition or multiplication, or a parameter of a block
/// (below the signature's parameter count for the entry block), or a return of at most
/// one value.
pub open spec fn layout_inst(f: &ClifFunction, i: u32) -> bool {
    ||| (f.opcode_of(i) == Opcode::Iadd || f.opcode_of(i) == Opcode::Imul) && f.args_of(i).len() >= 2 && match f.def_of(
        f.args_of(i)[0],
    ) {
        ValueDef::Result(i2, n) => n == 0 && (f.opcode_of(i2) == Opcode::Iadd || f.opcode_of(i2) == Opcode::Imul),
        ValueDef::Param(b, n) => n < f.params_of(b).len() && (f.entry_block == Some(b) ==> n < f.params@.len()),
        ValueDef::Union(..) => false,
    }
    ||| f.opcode_of(i) == Opcode::Return && f.args_of(i).len() <= 1
}

/// Value `a`, an argument of instruction `j` of block `k` of the layout, is defined by an
/// instruction earlier in the layout, or is a parameter of the entry block or of a block
/// whose parameters are all `i32`.
pub open spec fn defined_earlier_in_layout(f: &ClifFunction, k: int, j: int, a: u32) -> bool {
    &&& a < f.values@.len()
    &&& match f.def_of(a) {
        ValueDef::Result(i2, _) => insts_before(f, f.layout@, k).contains(i2) || f.insts_of(f.layout@[k]).subrange(
            0,
            j,
        ).contains(i2),
        ValueDef::Param(b, _) => f.entry_block == Some(b) || forall|p: int|
            0 <= p < f.params_of(b).len() ==> (#[trigger] f.values@[f.params_of(b)[p] as int]).ty.name@
                == "types::I32"@,
        ValueDef::Union(..) => false,
    }
}

/// The number of instructions of the first `k` blocks of `order`.
pub open spec fn insts_count(f: &ClifFunction, order: Seq<u32>, k: int) -> nat
    decreases k,
{
    if k <= 0 {
        0
    } else {
        insts_count(f, order, k - 1) + f.insts_of(order[k - 1]).len()
    }
}

proof fn lemma_insts_count_mono(f: &ClifFunction, order: Seq<u32>, k1: int, k2: int)
    requires
        0 <= k1 <= k2,
    ensures
        insts_count(f, order, k1) <= insts_count(f, order, k2),
    decreases k2 - k1,
{
    if k1 < k2 {
        lemma_insts_count_mono(f, order, k1, k2 - 1);
    }
}

/// The layout-order conversion accepts every well formed function whose signature types
/// are all `i32`, whose name starts with a one-byte character, whose layout lists each
/// block and instruction once with only `i32` parameters after the entry block, and whose
/// layout holds only additions, multiplications and returns of at most one value, each
/// argument defined earlier in the layout or a block parameter.
pub proof fn lemma_layout_accepts(f: &ClifFunction)
    requires
        f.wf(),
        forall|j: int| 0 <= j < f.params@.len() ==> (#[trigger] f.params@[j]).name@ == "types::I32"@,
        forall|j: int| 0 <= j < f.returns@.len() ==> (#[trigger] f.returns@[j]).name@ == "types::I32"@,
        f.name@.len() > 0,
        (f.name@[0] as u32) < 128,
        f.blocks_unique(f.layout@),
        forall|k: int, j: int|
            1 <= k < f.layout@.len() && 0 <= j < f.params_of(f.layout@[k]).len() ==> (#[trigger] f.values@[f.params_of(
                f.layout@[k],
            )[j] as int]).ty.name@ == "types::I32"@,
        forall|k: int, j: int|
            0 <= k < f.layout@.len() && 0 <= j < f.insts_of(f.layout@[k]).len() ==> {
                &&& f.insts_of(f.layout@[k])[j] < f.insts@.len()
                &&& layout_inst(f, #[trigger] f.insts_of(f.layout@[k])[j])
            },
        forall|k: int, j: int, m: int|
            0 <= k < f.layout@.len() && 0 <= j < f.insts_of(f.layout@[k]).len() && 0 <= m < f.args_of(
                f.insts_of(f.layout@[k])[j],
            ).len() ==> defined_earlier_in_layout(f, k, j, #[trigger] f.args_of(f.insts_of(f.layout@[k])[j])[m]),
    ensures
        layout_supported(f),
{
    let order = f.layout@;
    let n = order.len() as int;
    lemma_head_accepted(f);
    assert forall|k: int| 1 <= k < n implies f.block_params_i32(#[trigger] order[k]) by {
        assert forall|j: int| 0 <= j < f.params_of(order[k]).len() implies (#[trigger] f.values@[f.params_of(
            order[k],
        )[j] as int]).ty.name@ == "types::I32"@ by {
            assert(f.values@[f.params_of(f.layout@[k])[j] as int].ty.name@ == "types::I32"@);
        }
    }
    let s = insts_before(f, order, n);
    let rank = Map::new(
        |i: u32| s.contains(i),
        |i: u32|
            {
                let (k, j) = choose|k: int, j: int|
                    0 <= k < n && 0 <= j < f.insts_of(order[k]).len() && #[trigger] f.insts_of(order[k])[j] == i;
                insts_count(f, order, k) + j as nat
            },
    );
    let ci = Set::<u32>::empty();
    let cb = entry_set(f);
    assert forall|i: u32| #[trigger] s.contains(i) implies {
        &&& inst_ok(f, i)
        &&& rank.contains_key(i)
        &&& forall|m: int| 0 <= m < f.args_of(i).len() ==> arg_ok(f, s, rank, ci, cb, rank[i], #[trigger] f.args_of(i)[m])
    } by {
        let (k, j) = choose|k: int, j: int|
            0 <= k < n && 0 <= j < f.insts_of(order[k]).len() && #[trigger] f.insts_of(order[k])[j] == i;
        assert(f.insts_of(f.layout@[k])[j] < f.insts@.len() && layout_inst(f, f.insts_of(f.layout@[k])[j]));
        assert(rank[i] == insts_count(f, order, k) + j);
        assert forall|m: int| 0 <= m < f.args_of(i).len() implies arg_ok(f, s, rank, ci, cb, rank[i], #[trigger] f.args_of(i)[m]) by {
            let a = f.args_of(i)[m];
            assert(defined_earlier_in_layout(f, k, j, f.args_of(f.insts_of(f.layout@[k])[j])[m]));
            match f.def_of(a) {
                ValueDef::Result(i2, _) => {
                    let (k2, j2) = if insts_before(f, order, k).contains(i2) {
                        choose|k2: int, j2: int|
                            0 <= k2 < k && 0 <= j2 < f.insts_of(order[k2]).len() && #[trigger] f.insts_of(order[k2])[j2] == i2
                    } else {
                        let w = choose|w: int| 0 <= w < j && f.insts_of(order[k]).subrange(0, j)[w] == i2;
                        (k, w)
                    };
                    assert(0 <= k2 <= k && 0 <= j2 < f.insts_of(order[k2]).len() && f.insts_of(order[k2])[j2] == i2
                        && (k2 < k || j2 < j));
                    assert(s.contains(i2));
                    let (k3, j3) = choose|k3: int, j3: int|
                        0 <= k3 < n && 0 <= j3 < f.insts_of(order[k3]).len() && #[trigger] f.insts_of(order[k3])[j3] == i2;
                    assert(k3 == k2 && j3 == j2) by {
                        if k3 != k2 || j3 != j2 {
                            assert(f.insts_of(order[k3])[j3] != f.insts_of(order[k2])[j2]);
                        }
                    }
                    assert(rank[i2] == insts_count(f, order, k2) + j2);
                    if k2 < k {
                        lemma_insts_count_mono(f, order, k2 + 1, k);
                        assert(insts_count(f, order, k2 + 1) == insts_count(f, order, k2) + f.insts_of(order[k2]).len());
                    }
                },
                ValueDef::Param(b, _) => {
                    if f.entry_block == Some(b) {
                        assert(cb.contains(b));
                    } else {
                        assert forall|p: int| 0 <= p < f.params_of(b).len() implies (#[trigger] f.values@[f.params_of(
                            b,
                        )[p] as int]).ty.name@ == "types::I32"@ by {}
                    }
                },
                ValueDef::Union(..) => {},
            }
        }
    }
    assert(closure_ok(f, s, rank, ci, cb));
    assert(s.subset_of(s));
}

} // verus!
