//! Decision procedures for the conditions under which a Cranelift function can be
//! converted: each check returns exactly the truth of the property it is named after.
use crate::clif::{ClifFunction, ClifType, Opcode, ValueDef};
use crate::convert::{arg_cached, arg_ok, closure_ok, inst_ok, inst_ok_rpo, lhs_ok};
use crate::function::{
    block_ready, entry_set, insts_before, layout_convertible, lemma_insts_before_step, order_ready,
};
use vstd::set_lib::{lemma_int_range, lemma_len_subset, set_int_range};
use vstd::prelude::*;

verus! {

/// Whether every element of `s` is below `n`.
pub fn all_below(s: &Vec<u32>, n: usize) -> (b: bool)
    ensures
        b == (forall|k: int| 0 <= k < s@.len() ==> #[trigger] s@[k] < n),
{
    let mut k: usize = 0;
    while k < s.len()
        invariant
            k <= s@.len(),
            forall|kk: int| 0 <= kk < k ==> #[trigger] s@[kk] < n,
        decreases s@.len() - k,
    {
        if s[k] as usize >= n {
            return false;
        }
        k = k + 1;
    }
    true
}

/// Whether value `d` refers to entities in range.
fn def_in_range(f: &ClifFunction, d: ValueDef) -> (b: bool)
    ensures
        b == match d {
            ValueDef::Result(i, _) => i < f.insts@.len(),
            ValueDef::Param(b, _) => b < f.blocks@.len(),
            ValueDef::Union(x, y) => x < f.values@.len() && y < f.values@.len(),
        },
{
    match d {
        ValueDef::Result(i, _) => (i as usize) < f.insts.len(),
        ValueDef::Param(b, _) => (b as usize) < f.blocks.len(),
        ValueDef::Union(x, y) => (x as usize) < f.values.len() && (y as usize) < f.values.len(),
    }
}

impl ClifFunction {
    /// Whether the function is well formed ([`ClifFunction::wf`]).
    #[verifier::spinoff_prover]
    pub fn check_wf(&self) -> (b: bool)
        ensures
            b == self.wf(),
    {
        if self.values.len() >= 0xffff_ffff || self.insts.len() >= 0xffff_ffff || self.blocks.len()
            >= 0xffff_ffff {
            return false;
        }
        let mut v: usize = 0;
        while v < self.values.len()
            invariant
                v <= self.values@.len(),
                forall|vv: int|
                    0 <= vv < v ==> match #[trigger] self.values@[vv].def {
                        ValueDef::Result(i, _) => i < self.insts@.len(),
                        ValueDef::Param(b, _) => b < self.blocks@.len(),
                        ValueDef::Union(x, y) => x < self.values@.len() && y < self.values@.len(),
                    },
            decreases self.values@.len() - v,
        {
            if !def_in_range(self, self.values[v].def) {
                return false;
            }
            v = v + 1;
        }
        let mut i: usize = 0;
        while i < self.insts.len()
            invariant
                i <= self.insts@.len(),
                forall|ii: int, j: int|
                    0 <= ii < i && 0 <= j < self.insts@[ii].args@.len() ==> #[trigger] self.insts@[ii].args@[j]
                        < self.values@.len(),
            decreases self.insts@.len() - i,
        {
            if !all_below(&self.insts[i].args, self.values.len()) {
                proof {
                    let j = choose|j: int|
                        !(0 <= j < self.insts@[i as int].args@.len() ==> self.insts@[i as int].args@[j]
                            < self.values@.len());
                    assert(self.insts@[i as int].args@[j] >= self.values@.len());
                }
                return false;
            }
            i = i + 1;
        }
        let mut b: usize = 0;
        while b < self.blocks.len()
            invariant
                b <= self.blocks@.len(),
                forall|bb: int, j: int|
                    0 <= bb < b && 0 <= j < self.blocks@[bb].params@.len() ==> #[trigger] self.blocks@[bb].params@[j]
                        < self.values@.len(),
                forall|bb: int, j: int|
                    0 <= bb < b && 0 <= j < self.blocks@[bb].insts@.len() ==> #[trigger] self.blocks@[bb].insts@[j]
                        < self.insts@.len(),
            decreases self.blocks@.len() - b,
        {
            if !all_below(&self.blocks[b].params, self.values.len()) {
                proof {
                    let j = choose|j: int|
                        !(0 <= j < self.blocks@[b as int].params@.len() ==> self.blocks@[b as int].params@[j]
                            < self.values@.len());
                    assert(self.blocks@[b as int].params@[j] >= self.values@.len());
                }
                return false;
            }
            if !all_below(&self.blocks[b].insts, self.insts.len()) {
                proof {
                    let j = choose|j: int|
                        !(0 <= j < self.blocks@[b as int].insts@.len() ==> self.blocks@[b as int].insts@[j]
                            < self.insts@.len());
                    assert(self.blocks@[b as int].insts@[j] >= self.insts@.len());
                }
                return false;
            }
            b = b + 1;
        }
        if !all_below(&self.layout, self.blocks.len()) || !all_below(&self.rpo, self.blocks.len()) {
            return false;
        }
        let layout_entry = if self.layout.len() > 0 {
            Some(self.layout[0])
        } else {
            None
        };
        let rpo_entry = if self.rpo.len() > 0 {
            Some(self.rpo[0])
        } else {
            None
        };
        self.entry_block == layout_entry && self.entry_block == rpo_entry
    }
}


/// `n` times `false`.
fn falses(n: usize) -> (v: Vec<bool>)
    ensures
        v@.len() == n,
        forall|k: int| 0 <= k < n ==> !#[trigger] v@[k],
{
    let mut v: Vec<bool> = Vec::new();
    let mut k: usize = 0;
    while k < n
        invariant
            k <= n,
            v@.len() == k,
            forall|kk: int| 0 <= kk < k ==> !#[trigger] v@[kk],
        decreases n - k,
    {
        v.push(false);
        k = k + 1;
    }
    v
}

/// Position `(k1, j1)` comes before position `(k, j)` in a walk over the instructions of
/// a sequence of blocks.
pub open spec fn before(k1: int, j1: int, k: int, j: int) -> bool {
    k1 < k || (k1 == k && j1 < j)
}

/// Whether `order` lists distinct blocks of `f` whose instructions are all distinct
/// ([`ClifFunction::blocks_unique`]).
#[verifier::spinoff_prover]
pub fn check_blocks_unique(f: &ClifFunction, order: &Vec<u32>) -> (b: bool)
    requires
        f.wf(),
    ensures
        b == f.blocks_unique(order@),
{
    if !all_below(order, f.blocks.len()) {
        return false;
    }
    let mut seen_block = falses(f.blocks.len());
    let mut seen_inst = falses(f.insts.len());
    let mut k: usize = 0;
    while k < order.len()
        invariant
            f.wf(),
            forall|kk: int| 0 <= kk < order@.len() ==> #[trigger] order@[kk] < f.blocks@.len(),
            k <= order@.len(),
            seen_block@.len() == f.blocks@.len(),
            seen_inst@.len() == f.insts@.len(),
            forall|x: int|
                0 <= x < f.blocks@.len() ==> (#[trigger] seen_block@[x] <==> exists|k1: int|
                    0 <= k1 < k && order@[k1] == x),
            forall|x: int|
                0 <= x < f.insts@.len() ==> (#[trigger] seen_inst@[x] <==> exists|k1: int, j1: int|
                    0 <= k1 < k && 0 <= j1 < f.insts_of(order@[k1]).len() && f.insts_of(order@[k1])[j1] == x),
            forall|k1: int, k2: int| 0 <= k1 < k2 < k ==> order@[k1] != order@[k2],
            forall|k1: int, j1: int, k2: int, j2: int|
                0 <= k1 < k && 0 <= k2 < k && 0 <= j1 < f.insts_of(order@[k1]).len() && 0 <= j2 < f.insts_of(
                    order@[k2],
                ).len() && (k1 != k2 || j1 != j2) ==> #[trigger] f.insts_of(order@[k1])[j1]
                    != #[trigger] f.insts_of(order@[k2])[j2],
        decreases order@.len() - k,
    {
        let blk = order[k];
        if seen_block[blk as usize] {
            proof {
                let k1 = choose|k1: int| 0 <= k1 < k && order@[k1] == blk;
                assert(order@[k1] == order@[k as int]);
            }
            return false;
        }
        seen_block.set(blk as usize, true);
        let insts = &f.blocks[blk as usize].insts;
        proof {
            assert forall|x: int| 0 <= x < f.insts@.len() implies (#[trigger] seen_inst@[x] <==> exists|
                k1: int,
                j1: int,
            |
                before(k1, j1, k as int, 0) && 0 <= k1 && 0 <= j1 < f.insts_of(order@[k1]).len()
                    && f.insts_of(order@[k1])[j1] == x) by {
                if seen_inst@[x] {
                    let (k1, j1) = choose|k1: int, j1: int|
                        0 <= k1 < k && 0 <= j1 < f.insts_of(order@[k1]).len() && f.insts_of(order@[k1])[j1] == x;
                    assert(before(k1, j1, k as int, 0));
                }
                if exists|k1: int, j1: int|
                    before(k1, j1, k as int, 0) && 0 <= k1 && 0 <= j1 < f.insts_of(order@[k1]).len()
                        && f.insts_of(order@[k1])[j1] == x {
                    let (k1, j1) = choose|k1: int, j1: int|
                        before(k1, j1, k as int, 0) && 0 <= k1 && 0 <= j1 < f.insts_of(order@[k1]).len()
                            && f.insts_of(order@[k1])[j1] == x;
                    assert(0 <= k1 < k);
                }
            }
        }
        let mut j: usize = 0;
        while j < insts.len()
            invariant
                f.wf(),
                forall|kk: int| 0 <= kk < order@.len() ==> #[trigger] order@[kk] < f.blocks@.len(),
                k < order@.len(),
                blk == order@[k as int],
                insts@ == f.insts_of(blk),
                j <= insts@.len(),
                seen_inst@.len() == f.insts@.len(),
                forall|x: int|
                    0 <= x < f.insts@.len() ==> (#[trigger] seen_inst@[x] <==> exists|k1: int, j1: int|
                        before(k1, j1, k as int, j as int) && 0 <= k1 && 0 <= j1 < f.insts_of(order@[k1]).len()
                            && f.insts_of(order@[k1])[j1] == x),
                forall|k1: int, j1: int, k2: int, j2: int|
                    0 <= k1 && 0 <= k2 && before(k1, j1, k as int, j as int) && before(k2, j2, k as int, j as int)
                        && 0 <= j1 < f.insts_of(order@[k1]).len() && 0 <= j2 < f.insts_of(order@[k2]).len() && (k1
                        != k2 || j1 != j2) ==> #[trigger] f.insts_of(order@[k1])[j1]
                        != #[trigger] f.insts_of(order@[k2])[j2],
            decreases insts@.len() - j,
        {
            let inst = insts[j];
            assert(f.insts_of(blk)[j as int] == inst);
            if seen_inst[inst as usize] {
                proof {
                    let (k1, j1) = choose|k1: int, j1: int|
                        before(k1, j1, k as int, j as int) && 0 <= k1 && 0 <= j1 < f.insts_of(order@[k1]).len()
                            && f.insts_of(order@[k1])[j1] == inst;
                    assert(f.insts_of(order@[k1])[j1] == f.insts_of(order@[k as int])[j as int]);
                }
                return false;
            }
            let ghost seen0 = seen_inst@;
            seen_inst.set(inst as usize, true);
            proof {
                assert forall|x: int| 0 <= x < f.insts@.len() implies (#[trigger] seen_inst@[x] <==> exists|
                    k1: int,
                    j1: int,
                |
                    before(k1, j1, k as int, j + 1) && 0 <= k1 && 0 <= j1 < f.insts_of(order@[k1]).len()
                        && f.insts_of(order@[k1])[j1] == x) by {
                    if x == inst {
                        assert(before(k as int, j as int, k as int, j + 1));
                        assert(f.insts_of(order@[k as int])[j as int] == x);
                    } else {
                        assert(seen_inst@[x] == seen0[x]);
                        if seen0[x] {
                            let (k1, j1) = choose|k1: int, j1: int|
                                before(k1, j1, k as int, j as int) && 0 <= k1 && 0 <= j1 < f.insts_of(order@[k1]).len()
                                    && f.insts_of(order@[k1])[j1] == x;
                            assert(before(k1, j1, k as int, j + 1));
                        }
                        if exists|k1: int, j1: int|
                            before(k1, j1, k as int, j + 1) && 0 <= k1 && 0 <= j1 < f.insts_of(order@[k1]).len()
                                && f.insts_of(order@[k1])[j1] == x {
                            let (k1, j1) = choose|k1: int, j1: int|
                                before(k1, j1, k as int, j + 1) && 0 <= k1 && 0 <= j1 < f.insts_of(order@[k1]).len()
                                    && f.insts_of(order@[k1])[j1] == x;
                            assert(before(k1, j1, k as int, j as int));
                        }
                    }
                }
                assert forall|k1: int, j1: int, k2: int, j2: int|
                    0 <= k1 && 0 <= k2 && before(k1, j1, k as int, j + 1) && before(k2, j2, k as int, j + 1)
                        && 0 <= j1 < f.insts_of(order@[k1]).len() && 0 <= j2 < f.insts_of(order@[k2]).len() && (k1
                        != k2 || j1 != j2) implies #[trigger] f.insts_of(order@[k1])[j1]
                    != #[trigger] f.insts_of(order@[k2])[j2] by {
                    if k1 == k && j1 == j {
                        assert(before(k2, j2, k as int, j as int));
                        if f.insts_of(order@[k2])[j2] == inst {
                            assert(seen0[inst as int]);
                        }
                    } else if k2 == k && j2 == j {
                        assert(before(k1, j1, k as int, j as int));
                        if f.insts_of(order@[k1])[j1] == inst {
                            assert(seen0[inst as int]);
                        }
                    } else {
                        assert(before(k1, j1, k as int, j as int));
                        assert(before(k2, j2, k as int, j as int));
                    }
                }
            }
            j = j + 1;
        }
        proof {
            assert forall|x: int| 0 <= x < f.blocks@.len() implies (#[trigger] seen_block@[x] <==> exists|k1: int|
                0 <= k1 < k + 1 && order@[k1] == x) by {
                if x == blk {
                    assert(order@[k as int] == x);
                }
            }
            assert forall|x: int| 0 <= x < f.insts@.len() implies (#[trigger] seen_inst@[x] <==> exists|
                k1: int,
                j1: int,
            | 0 <= k1 < k + 1 && 0 <= j1 < f.insts_of(order@[k1]).len() && f.insts_of(order@[k1])[j1] == x) by {
                if seen_inst@[x] {
                    let (k1, j1) = choose|k1: int, j1: int|
                        before(k1, j1, k as int, j as int) && 0 <= k1 && 0 <= j1 < f.insts_of(order@[k1]).len()
                            && f.insts_of(order@[k1])[j1] == x;
                    assert(0 <= k1 < k + 1);
                }
                if exists|k1: int, j1: int|
                    0 <= k1 < k + 1 && 0 <= j1 < f.insts_of(order@[k1]).len() && f.insts_of(order@[k1])[j1] == x {
                    let (k1, j1) = choose|k1: int, j1: int|
                        0 <= k1 < k + 1 && 0 <= j1 < f.insts_of(order@[k1]).len() && f.insts_of(order@[k1])[j1] == x;
                    assert(before(k1, j1, k as int, j as int));
                }
            }
            assert forall|k1: int, k2: int| 0 <= k1 < k2 < k + 1 implies order@[k1] != order@[k2] by {
                if k2 == k {
                    assert(seen_block@[order@[k1] as int] || order@[k1] != blk);
                }
            }
            assert forall|k1: int, j1: int, k2: int, j2: int|
                0 <= k1 < k + 1 && 0 <= k2 < k + 1 && 0 <= j1 < f.insts_of(order@[k1]).len() && 0 <= j2 < f.insts_of(
                    order@[k2],
                ).len() && (k1 != k2 || j1 != j2) implies #[trigger] f.insts_of(order@[k1])[j1]
                != #[trigger] f.insts_of(order@[k2])[j2] by {
                assert(before(k1, j1, k as int, j as int));
                assert(before(k2, j2, k as int, j as int));
            }
        }
        k = k + 1;
    }
    proof {
        assert(order@.no_duplicates()) by {
            assert forall|i: int, jj: int| 0 <= i < order@.len() && 0 <= jj < order@.len() && i != jj implies order@[i]
                != order@[jj] by {
                if i < jj {
                } else {
                }
            }
        }
    }
    true
}


/// Whether every type of `tys` is `i32` (named `types::I32`).
fn all_i32(tys: &Vec<ClifType>) -> (b: bool)
    ensures
        b == (forall|j: int| 0 <= j < tys@.len() ==> (#[trigger] tys@[j]).name@ == "types::I32"@),
{
    let i32_name = String::from_str("types::I32");
    let mut j: usize = 0;
    while j < tys.len()
        invariant
            i32_name@ == "types::I32"@,
            j <= tys@.len(),
            forall|jj: int| 0 <= jj < j ==> (#[trigger] tys@[jj]).name@ == "types::I32"@,
        decreases tys@.len() - j,
    {
        if tys[j].name != i32_name {
            return false;
        }
        j = j + 1;
    }
    true
}

impl ClifFunction {
    /// Whether all parameter and return types of the signature are `i32`
    /// ([`ClifFunction::signature_i32`]).
    pub fn check_signature_i32(&self) -> (b: bool)
        ensures
            b == self.signature_i32(),
    {
        all_i32(&self.params) && all_i32(&self.returns)
    }

    /// Whether the name starts with a one-byte character ([`ClifFunction::name_droppable`]).
    pub fn check_name_droppable(&self) -> (b: bool)
        ensures
            b == self.name_droppable(),
    {
        let name = self.name.as_str();
        if name.unicode_len() == 0 {
            return false;
        }
        let c = name.get_char(0);
        (c as u32) < 128
    }

    /// Whether all parameters of block `b` have type `i32` ([`ClifFunction::block_params_i32`]).
    pub fn check_block_params_i32(&self, b: u32) -> (r: bool)
        requires
            self.wf(),
            b < self.blocks@.len(),
        ensures
            r == self.block_params_i32(b),
    {
        let i32_name = String::from_str("types::I32");
        let params = &self.blocks[b as usize].params;
        let mut j: usize = 0;
        while j < params.len()
            invariant
                self.wf(),
                b < self.blocks@.len(),
                params@ == self.params_of(b),
                i32_name@ == "types::I32"@,
                j <= params@.len(),
                forall|jj: int|
                    0 <= jj < j ==> (#[trigger] self.values@[self.params_of(b)[jj] as int]).ty.name@ == "types::I32"@,
            decreases params@.len() - j,
        {
            let v = params[j];
            assert(self.params_of(b)[j as int] == v);
            if self.values[v as usize].ty.name != i32_name {
                return false;
            }
            j = j + 1;
        }
        true
    }

    /// Whether the blocks of `order` after the first have only `i32` parameters.
    pub fn check_later_blocks_i32(&self, order: &Vec<u32>) -> (r: bool)
        requires
            self.wf(),
            forall|k: int| 0 <= k < order@.len() ==> #[trigger] order@[k] < self.blocks@.len(),
        ensures
            r == (forall|k: int| 1 <= k < order@.len() ==> self.block_params_i32(#[trigger] order@[k])),
    {
        let mut k: usize = 1;
        while k < order.len()
            invariant
                self.wf(),
                forall|kk: int| 0 <= kk < order@.len() ==> #[trigger] order@[kk] < self.blocks@.len(),
                1 <= k,
                k <= order@.len() || order@.len() == 0,
                forall|kk: int| 1 <= kk < k && kk < order@.len() ==> self.block_params_i32(#[trigger] order@[kk]),
            decreases order@.len() - k,
        {
            if !self.check_block_params_i32(order[k]) {
                return false;
            }
            k = k + 1;
        }
        true
    }
}


/// Argument `a` is available in round `r` of the ranking `rk`: it is the result of an
/// instruction ranked in an earlier round, or a parameter of the entry block or of a
/// block with only `i32` parameters.
pub open spec fn arg_ranked(f: &ClifFunction, rk: Seq<usize>, r: nat, a: u32) -> bool {
    &&& a < f.values@.len()
    &&& match f.def_of(a) {
        ValueDef::Result(i, _) => 0 < rk[i as int] < r,
        ValueDef::Param(b, _) => f.entry_block == Some(b) || f.block_params_i32(b),
        ValueDef::Union(..) => false,
    }
}

/// Instruction `i` can be ranked in round `r`: it can be converted on its own and all
/// its arguments are available in round `r`.
pub open spec fn inst_ranked_ready(f: &ClifFunction, rk: Seq<usize>, r: nat, i: u32) -> bool {
    &&& inst_ok(f, i)
    &&& forall|j: int| 0 <= j < f.args_of(i).len() ==> arg_ranked(f, rk, r, #[trigger] f.args_of(i)[j])
}

/// The instructions with a rank.
pub open spec fn ranked_set(rk: Seq<usize>) -> Set<int> {
    Set::new(|x: int| 0 <= x < rk.len() && rk[x] > 0)
}

/// `n` times zero.
fn zeros(n: usize) -> (v: Vec<usize>)
    ensures
        v@.len() == n,
        forall|k: int| 0 <= k < n ==> #[trigger] v@[k] == 0,
{
    let mut v: Vec<usize> = Vec::new();
    let mut k: usize = 0;
    while k < n
        invariant
            k <= n,
            v@.len() == k,
            forall|kk: int| 0 <= kk < k ==> #[trigger] v@[kk] == 0,
        decreases n - k,
    {
        v.push(0);
        k = k + 1;
    }
    v
}

/// Whether the first argument of binary instruction `i` has a type once converted
/// ([`lhs_ok`]).
fn check_lhs(f: &ClifFunction, i: u32) -> (b: bool)
    requires
        f.wf(),
        i < f.insts@.len(),
        f.args_of(i).len() >= 1,
    ensures
        b == lhs_ok(f, i),
{
    let a = f.insts[i as usize].args[0];
    match f.values[a as usize].def {
        ValueDef::Result(i2, n) => {
            let op = f.insts[i2 as usize].opcode;
            n == 0 && (op == Opcode::Iadd || op == Opcode::Imul)
        },
        ValueDef::Param(b, n) => {
            n < f.blocks[b as usize].params.len() && (f.entry_block != Some(b) || n < f.params.len())
        },
        ValueDef::Union(..) => false,
    }
}

/// Whether instruction `i` can be converted on its own ([`inst_ok`]).
fn check_inst_ok(f: &ClifFunction, i: u32) -> (b: bool)
    requires
        f.wf(),
        i < f.insts@.len(),
    ensures
        b == inst_ok(f, i),
{
    let data = &f.insts[i as usize];
    match data.opcode {
        Opcode::Iadd | Opcode::Imul => data.args.len() >= 2 && check_lhs(f, i),
        Opcode::Return => data.args.len() <= 1,
        Opcode::Other => false,
    }
}

/// Whether instruction `i` can be ranked in round `r` ([`inst_ranked_ready`]).
fn check_inst_ranked_ready(f: &ClifFunction, rk: &Vec<usize>, r: usize, i: u32) -> (b: bool)
    requires
        f.wf(),
        i < f.insts@.len(),
        rk@.len() == f.insts@.len(),
    ensures
        b == inst_ranked_ready(f, rk@, r as nat, i),
{
    if !check_inst_ok(f, i) {
        return false;
    }
    let args = &f.insts[i as usize].args;
    let mut j: usize = 0;
    while j < args.len()
        invariant
            f.wf(),
            i < f.insts@.len(),
            rk@.len() == f.insts@.len(),
            args@ == f.args_of(i),
            j <= args@.len(),
            forall|jj: int| 0 <= jj < j ==> arg_ranked(f, rk@, r as nat, #[trigger] f.args_of(i)[jj]),
        decreases args@.len() - j,
    {
        let a = args[j];
        assert(f.args_of(i)[j as int] == a);
        let ok = match f.values[a as usize].def {
            ValueDef::Result(i2, _) => 0 < rk[i2 as usize] && rk[i2 as usize] < r,
            ValueDef::Param(b, _) => f.entry_block == Some(b) || f.check_block_params_i32(b),
            ValueDef::Union(..) => false,
        };
        if !ok {
            return false;
        }
        j = j + 1;
    }
    true
}

/// Readiness only looks at instructions ranked earlier, whose ranks do not change.
proof fn lemma_ready_frame(f: &ClifFunction, rk: Seq<usize>, rk2: Seq<usize>, q: nat, x: u32)
    requires
        f.wf(),
        rk.len() == f.insts@.len(),
        rk2.len() == rk.len(),
        forall|y: int| 0 <= y < rk.len() && rk[y] > 0 ==> #[trigger] rk2[y] == rk[y],
        inst_ranked_ready(f, rk, q, x),
    ensures
        inst_ranked_ready(f, rk2, q, x),
{
    assert forall|j: int| 0 <= j < f.args_of(x).len() implies arg_ranked(f, rk2, q, #[trigger] f.args_of(x)[j]) by {
        assert(arg_ranked(f, rk, q, f.args_of(x)[j]));
        match f.def_of(f.args_of(x)[j]) {
            ValueDef::Result(i2, _) => {
                assert(rk2[i2 as int] == rk[i2 as int]);
            },
            _ => {},
        }
    }
}

/// When no unranked instruction can be ranked in round `r`, every instruction of a ranked
/// set of convertible instructions (with nothing cached but the entry block) is ranked.
proof fn lemma_ranking_complete(
    f: &ClifFunction,
    rk: Seq<usize>,
    r: nat,
    s: Set<u32>,
    rank: Map<u32, nat>,
    i: u32,
)
    requires
        f.wf(),
        rk.len() == f.insts@.len(),
        forall|x: int| 0 <= x < rk.len() && rk[x] == 0 ==> !inst_ranked_ready(f, rk, r, x as u32),
        forall|x: int| 0 <= x < rk.len() ==> #[trigger] rk[x] < r,
        closure_ok(f, s, rank, Set::empty(), entry_set(f)),
        s.contains(i),
    ensures
        i < rk.len(),
        rk[i as int] > 0,
    decreases rank[i],
{
    assert(inst_ok(f, i));
    assert forall|j: int| 0 <= j < f.args_of(i).len() implies arg_ranked(f, rk, r, #[trigger] f.args_of(i)[j]) by {
        let a = f.args_of(i)[j];
        assert(arg_ok(f, s, rank, Set::empty(), entry_set(f), rank[i], a));
        match f.def_of(a) {
            ValueDef::Result(i2, _) => {
                assert(!Set::<u32>::empty().contains(i2));
                lemma_ranking_complete(f, rk, r, s, rank, i2);
            },
            ValueDef::Param(b, _) => {
                if entry_set(f).contains(b) {
                    assert(f.entry_block == Some(b));
                }
            },
            ValueDef::Union(..) => {},
        }
    }
    assert(inst_ranked_ready(f, rk, r, i));
}

/// Whether the instructions of the layout can be converted on demand when nothing is
/// cached but the entry block ([`layout_convertible`]).
///
/// Instructions are ranked in rounds: an instruction is ranked in a round when it can be
/// converted on its own and the instructions defining its arguments were ranked in
/// earlier rounds.  When a round ranks nothing, the ranked instructions are exactly
/// those that can be converted.
#[verifier::spinoff_prover]
pub fn check_layout_convertible(f: &ClifFunction) -> (b: bool)
    requires
        f.wf(),
    ensures
        b == layout_convertible(f, Set::empty(), entry_set(f)),
{
    let n = f.insts.len();
    let mut rk = zeros(n);
    let ghost mut ranked: Set<int> = Set::empty();
    proof {
        assert(ranked =~= ranked_set(rk@));
        lemma_int_range(0, n as int);
    }
    let mut r: usize = 1;
    let mut changed = true;
    while changed
        invariant
            f.wf(),
            n == f.insts@.len(),
            rk@.len() == n,
            1 <= r <= n + 1,
            ranked == ranked_set(rk@),
            set_int_range(0, n as int).finite(),
            set_int_range(0, n as int).len() == n,
            changed ==> ranked.len() + 1 >= r,
            forall|x: int| 0 <= x < n ==> #[trigger] rk@[x] < r,
            forall|x: int| 0 <= x < n && rk@[x] > 0 ==> inst_ranked_ready(f, rk@, rk@[x] as nat, x as u32),
            !changed ==> forall|x: int|
                0 <= x < n && rk@[x] == 0 ==> !inst_ranked_ready(f, rk@, r as nat, x as u32),
        decreases n + 2 - r - (if changed { 0int } else { 1int }),
    {
        proof {
            assert(ranked.subset_of(set_int_range(0, n as int)));
            lemma_len_subset(ranked, set_int_range(0, n as int));
        }
        let ghost rk0 = rk@;
        let ghost start_len = ranked.len();
        let mut changed_round = false;
        let mut i: usize = 0;
        while i < n
            invariant
                f.wf(),
                n == f.insts@.len(),
                rk@.len() == n,
                rk0.len() == n,
                1 <= r <= n + 1,
                i <= n,
                ranked == ranked_set(rk@),
                ranked.finite(),
                start_len + 1 >= r,
                set_int_range(0, n as int).finite(),
                set_int_range(0, n as int).len() == n,
                changed_round ==> ranked.len() >= start_len + 1,
                !changed_round ==> rk@ == rk0,
                !changed_round ==> ranked.len() == start_len,
                forall|x: int| 0 <= x < n && rk0[x] > 0 ==> #[trigger] rk@[x] == rk0[x],
                forall|x: int| 0 <= x < n ==> #[trigger] rk@[x] <= r,
                forall|x: int| 0 <= x < n ==> #[trigger] rk0[x] < r,
                forall|x: int| 0 <= x < n && rk@[x] > 0 ==> inst_ranked_ready(f, rk@, rk@[x] as nat, x as u32),
                !changed_round ==> forall|x: int|
                    0 <= x < i && rk@[x] == 0 ==> !inst_ranked_ready(f, rk@, r as nat, x as u32),
            decreases n - i,
        {
            if rk[i] == 0 && check_inst_ranked_ready(f, &rk, r, i as u32) {
                let ghost rk1 = rk@;
                rk.set(i, r);
                proof {
                    assert(!ranked.contains(i as int));
                    ranked = ranked.insert(i as int);
                    assert(ranked =~= ranked_set(rk@));
                    assert forall|x: int| 0 <= x < n && rk@[x] > 0 implies inst_ranked_ready(
                        f,
                        rk@,
                        rk@[x] as nat,
                        x as u32,
                    ) by {
                        assert forall|y: int| 0 <= y < rk1.len() && rk1[y] > 0 implies #[trigger] rk@[y] == rk1[y] by {}
                        if x == i {
                            lemma_ready_frame(f, rk1, rk@, r as nat, x as u32);
                        } else {
                            lemma_ready_frame(f, rk1, rk@, rk1[x] as nat, x as u32);
                        }
                    }
                }
                changed_round = true;
            }
            i = i + 1;
        }
        changed = changed_round;
        if changed {
            proof {
                assert(ranked.subset_of(set_int_range(0, n as int)));
                lemma_len_subset(ranked, set_int_range(0, n as int));
            }
            r = r + 1;
        }
    }
    let ghost s = Set::new(|x: u32| (x as int) < n && rk@[x as int] > 0);
    let ghost rank = Map::new(|x: u32| s.contains(x), |x: u32| rk@[x as int] as nat);
    let ghost cb = entry_set(f);
    proof {
        assert forall|i: u32| #[trigger] s.contains(i) implies {
            &&& inst_ok(f, i)
            &&& rank.contains_key(i)
            &&& forall|j: int|
                0 <= j < f.args_of(i).len() ==> arg_ok(f, s, rank, Set::empty(), cb, rank[i], #[trigger] f.args_of(i)[j])
        } by {
            assert(inst_ranked_ready(f, rk@, rk@[i as int] as nat, i));
            assert forall|j: int| 0 <= j < f.args_of(i).len() implies arg_ok(
                f,
                s,
                rank,
                Set::empty(),
                cb,
                rank[i],
                #[trigger] f.args_of(i)[j],
            ) by {
                let a = f.args_of(i)[j];
                assert(arg_ranked(f, rk@, rk@[i as int] as nat, a));
                match f.def_of(a) {
                    ValueDef::Result(i2, _) => {
                        assert(s.contains(i2));
                    },
                    ValueDef::Param(b, _) => {
                        if f.entry_block == Some(b) {
                            assert(cb.contains(b));
                        }
                    },
                    ValueDef::Union(..) => {},
                }
            }
        }
        assert(closure_ok(f, s, rank, Set::empty(), cb));
    }
    let mut k: usize = 0;
    while k < f.layout.len()
        invariant
            f.wf(),
            n == f.insts@.len(),
            rk@.len() == n,
            k <= f.layout@.len(),
            s == Set::new(|x: u32| (x as int) < n && rk@[x as int] > 0),
            forall|x: int| 0 <= x < n ==> #[trigger] rk@[x] < r,
            forall|x: int| 0 <= x < n && rk@[x] == 0 ==> !inst_ranked_ready(f, rk@, r as nat, x as u32),
            closure_ok(f, s, rank, Set::empty(), cb),
            cb == entry_set(f),
            insts_before(f, f.layout@, k as int).subset_of(s),
        decreases f.layout@.len() - k,
    {
        let insts = &f.blocks[f.layout[k] as usize].insts;
        let mut j: usize = 0;
        while j < insts.len()
            invariant
                f.wf(),
                n == f.insts@.len(),
                rk@.len() == n,
                k < f.layout@.len(),
                insts@ == f.insts_of(f.layout@[k as int]),
                j <= insts@.len(),
                s == Set::new(|x: u32| (x as int) < n && rk@[x as int] > 0),
                forall|x: int| 0 <= x < n ==> #[trigger] rk@[x] < r,
                forall|x: int| 0 <= x < n && rk@[x] == 0 ==> !inst_ranked_ready(f, rk@, r as nat, x as u32),
                closure_ok(f, s, rank, Set::empty(), cb),
                cb == entry_set(f),
                forall|jj: int| 0 <= jj < j ==> s.contains(#[trigger] insts@[jj]),
            decreases insts@.len() - j,
        {
            let inst = insts[j];
            if rk[inst as usize] == 0 {
                proof {
                    assert(insts_before(f, f.layout@, f.layout@.len() as int).contains(inst)) by {
                        assert(f.insts_of(f.layout@[k as int])[j as int] == inst);
                    }
                    if layout_convertible(f, Set::empty(), entry_set(f)) {
                        let (s2, rank2) = choose|s2: Set<u32>, rank2: Map<u32, nat>|
                            #[trigger] closure_ok(f, s2, rank2, Set::empty(), entry_set(f))
                                && insts_before(f, f.layout@, f.layout@.len() as int).subset_of(s2);
                        lemma_ranking_complete(f, rk@, r as nat, s2, rank2, inst);
                    }
                }
                return false;
            }
            j = j + 1;
        }
        proof {
            assert forall|i: u32| #[trigger] insts_before(f, f.layout@, k + 1).contains(i) implies s.contains(i) by {
                let (kk, jj) = choose|kk: int, jj: int|
                    0 <= kk < k + 1 && 0 <= jj < f.insts_of(f.layout@[kk]).len() && #[trigger] f.insts_of(
                        f.layout@[kk],
                    )[jj] == i;
                if kk < k {
                    assert(insts_before(f, f.layout@, k as int).contains(i));
                } else {
                    assert(insts@[jj] == i);
                }
            }
        }
        k = k + 1;
    }
    proof {
        assert(closure_ok(f, s, rank, Set::empty(), entry_set(f)) && insts_before(
            f,
            f.layout@,
            f.layout@.len() as int,
        ).subset_of(s));
    }
    true
}


/// Whether instruction `i` can be converted once its arguments are cached
/// ([`inst_ok_rpo`]).
fn check_inst_ok_rpo(f: &ClifFunction, i: u32) -> (b: bool)
    requires
        f.wf(),
        i < f.insts@.len(),
    ensures
        b == inst_ok_rpo(f, i),
{
    let data = &f.insts[i as usize];
    match data.opcode {
        Opcode::Iadd => data.args.len() >= 2 && check_lhs(f, i),
        Opcode::Return => data.args.len() <= 1,
        _ => false,
    }
}

/// Whether every argument of instruction `i` is defined by an instruction marked in
/// `ci` or is a parameter of a block marked in `cb`.
fn check_args_cached(f: &ClifFunction, ci: &Vec<bool>, cb: &Vec<bool>, i: u32) -> (b: bool)
    requires
        f.wf(),
        i < f.insts@.len(),
        ci@.len() == f.insts@.len(),
        cb@.len() == f.blocks@.len(),
    ensures
        b == (forall|m: int|
            0 <= m < f.args_of(i).len() ==> arg_cached(
                f,
                Set::new(|x: u32| (x as int) < ci@.len() && ci@[x as int]),
                Set::new(|x: u32| (x as int) < cb@.len() && cb@[x as int]),
                #[trigger] f.args_of(i)[m],
            )),
{
    let ghost cis = Set::new(|x: u32| (x as int) < ci@.len() && ci@[x as int]);
    let ghost cbs = Set::new(|x: u32| (x as int) < cb@.len() && cb@[x as int]);
    let args = &f.insts[i as usize].args;
    let mut m: usize = 0;
    while m < args.len()
        invariant
            f.wf(),
            i < f.insts@.len(),
            ci@.len() == f.insts@.len(),
            cb@.len() == f.blocks@.len(),
            cis == Set::new(|x: u32| (x as int) < ci@.len() && ci@[x as int]),
            cbs == Set::new(|x: u32| (x as int) < cb@.len() && cb@[x as int]),
            args@ == f.args_of(i),
            m <= args@.len(),
            forall|mm: int| 0 <= mm < m ==> arg_cached(f, cis, cbs, #[trigger] f.args_of(i)[mm]),
        decreases args@.len() - m,
    {
        let a = args[m];
        assert(f.args_of(i)[m as int] == a);
        let ok = match f.values[a as usize].def {
            ValueDef::Result(i2, _) => ci[i2 as usize],
            ValueDef::Param(b, _) => cb[b as usize],
            ValueDef::Union(..) => false,
        };
        if !ok {
            return false;
        }
        m = m + 1;
    }
    true
}

/// Whether the reverse post-order can be converted when nothing is cached but the entry
/// block: every instruction, in the walk, can be converted from earlier definitions
/// ([`order_ready`]).
#[verifier::spinoff_prover]
pub fn check_rpo_ready(f: &ClifFunction) -> (b: bool)
    requires
        f.wf(),
    ensures
        b == order_ready(f, f.rpo@, Set::empty(), entry_set(f)),
{
    let order = &f.rpo;
    let mut ci = falses(f.insts.len());
    let mut cb = falses(f.blocks.len());
    match f.entry_block {
        Some(e) => {
            cb.set(e as usize, true);
        },
        None => {},
    }
    let ghost cis0: Set<u32> = Set::empty();
    let ghost cbs0 = entry_set(f);
    let mut k: usize = 0;
    while k < order.len()
        invariant
            f.wf(),
            order@ == f.rpo@,
            k <= order@.len(),
            ci@.len() == f.insts@.len(),
            cb@.len() == f.blocks@.len(),
            cis0 == Set::<u32>::empty(),
            cbs0 == entry_set(f),
            Set::new(|x: u32| (x as int) < ci@.len() && ci@[x as int]) == cis0.union(insts_before(f, order@, k as int)),
            Set::new(|x: u32| (x as int) < cb@.len() && cb@[x as int]) == cbs0.union(order@.subrange(0, k as int).to_set()),
            forall|kk: int|
                0 <= kk < k ==> block_ready(
                    f,
                    #[trigger] order@[kk],
                    cis0.union(insts_before(f, order@, kk)),
                    cbs0.union(order@.subrange(0, kk + 1).to_set()),
                ),
        decreases order@.len() - k,
    {
        let blk = order[k];
        let ghost cbs_prev = Set::new(|x: u32| (x as int) < cb@.len() && cb@[x as int]);
        cb.set(blk as usize, true);
        let ghost cis_k = cis0.union(insts_before(f, order@, k as int));
        let ghost cbs_k = cbs0.union(order@.subrange(0, k + 1).to_set());
        proof {
            assert(order@.subrange(0, k + 1) =~= order@.subrange(0, k as int).push(blk));
            order@.subrange(0, k as int).lemma_push_to_set_commute(blk);
            assert(Set::new(|x: u32| (x as int) < cb@.len() && cb@[x as int]) =~= cbs_prev.insert(blk));
            assert(Set::new(|x: u32| (x as int) < cb@.len() && cb@[x as int]) =~= cbs_k);
        }
        let insts = &f.blocks[blk as usize].insts;
        let mut j: usize = 0;
        while j < insts.len()
            invariant
                f.wf(),
                order@ == f.rpo@,
                k < order@.len(),
                blk == order@[k as int],
                insts@ == f.insts_of(blk),
                j <= insts@.len(),
                ci@.len() == f.insts@.len(),
                cb@.len() == f.blocks@.len(),
                cis0 == Set::<u32>::empty(),
                cbs0 == entry_set(f),
                cis_k == cis0.union(insts_before(f, order@, k as int)),
                cbs_k == cbs0.union(order@.subrange(0, k + 1).to_set()),
                forall|kk: int|
                    0 <= kk < k ==> block_ready(
                        f,
                        #[trigger] order@[kk],
                        cis0.union(insts_before(f, order@, kk)),
                        cbs0.union(order@.subrange(0, kk + 1).to_set()),
                    ),
                Set::new(|x: u32| (x as int) < ci@.len() && ci@[x as int]) == cis_k.union(insts@.subrange(0, j as int).to_set()),
                Set::new(|x: u32| (x as int) < cb@.len() && cb@[x as int]) == cbs_k,
                forall|jj: int|
                    0 <= jj < j ==> {
                        &&& inst_ok_rpo(f, #[trigger] insts@[jj])
                        &&& forall|m: int|
                            0 <= m < f.args_of(insts@[jj]).len() ==> arg_cached(
                                f,
                                cis_k.union(insts@.subrange(0, jj).to_set()),
                                cbs_k,
                                #[trigger] f.args_of(insts@[jj])[m],
                            )
                    },
            decreases insts@.len() - j,
        {
            let inst = insts[j];
            if !check_inst_ok_rpo(f, inst) || !check_args_cached(f, &ci, &cb, inst) {
                proof {
                    assert(f.insts_of(order@[k as int])[j as int] == inst);
                    assert(insts@.subrange(0, j as int) == f.insts_of(blk).subrange(0, j as int));
                    if inst_ok_rpo(f, inst) {
                        let cis = Set::new(|x: u32| (x as int) < ci@.len() && ci@[x as int]);
                        let cbs = Set::new(|x: u32| (x as int) < cb@.len() && cb@[x as int]);
                        let m = choose|m: int|
                            0 <= m < f.args_of(inst).len() && !arg_cached(f, cis, cbs, #[trigger] f.args_of(inst)[m]);
                        assert(cis == cis_k.union(insts@.subrange(0, j as int).to_set()));
                        assert(!arg_cached(
                            f,
                            cis_k.union(f.insts_of(blk).subrange(0, j as int).to_set()),
                            cbs_k,
                            f.args_of(f.insts_of(blk)[j as int])[m],
                        ));
                    }
                    assert(!block_ready(f, order@[k as int], cis_k, cbs_k));
                    let e: Set<u32> = Set::empty();
                    assert(cis_k == e.union(insts_before(f, f.rpo@, k as int)));
                    assert(cbs_k == entry_set(f).union(f.rpo@.subrange(0, k + 1).to_set()));
                    assert(!block_ready(
                        f,
                        f.rpo@[k as int],
                        e.union(insts_before(f, f.rpo@, k as int)),
                        entry_set(f).union(f.rpo@.subrange(0, k + 1).to_set()),
                    ));
                    assert(!order_ready(f, f.rpo@, e, entry_set(f)));
                }
                return false;
            }
            let ghost cis_prev = Set::new(|x: u32| (x as int) < ci@.len() && ci@[x as int]);
            ci.set(inst as usize, true);
            proof {
                assert(insts@.subrange(0, j + 1) =~= insts@.subrange(0, j as int).push(inst));
                insts@.subrange(0, j as int).lemma_push_to_set_commute(inst);
                assert(Set::new(|x: u32| (x as int) < ci@.len() && ci@[x as int]) =~= cis_prev.insert(inst));
                assert(Set::new(|x: u32| (x as int) < ci@.len() && ci@[x as int]) =~= cis_k.union(
                    insts@.subrange(0, j + 1).to_set(),
                ));
            }
            j = j + 1;
        }
        proof {
            assert(block_ready(f, order@[k as int], cis_k, cbs_k)) by {
                assert forall|jj: int| 0 <= jj < f.insts_of(order@[k as int]).len() implies {
                    &&& inst_ok_rpo(f, #[trigger] f.insts_of(order@[k as int])[jj])
                    &&& forall|m: int|
                        0 <= m < f.args_of(f.insts_of(order@[k as int])[jj]).len() ==> arg_cached(
                            f,
                            cis_k.union(f.insts_of(order@[k as int]).subrange(0, jj).to_set()),
                            cbs_k,
                            #[trigger] f.args_of(f.insts_of(order@[k as int])[jj])[m],
                        )
                } by {
                    assert(insts@[jj] == f.insts_of(order@[k as int])[jj]);
                }
            }
            lemma_insts_before_step(f, order@, k as int);
            assert(insts@.subrange(0, j as int) =~= insts@);
            assert(Set::new(|x: u32| (x as int) < ci@.len() && ci@[x as int]) =~= cis0.union(
                insts_before(f, order@, k + 1),
            ));
        }
        k = k + 1;
    }
    true
}

} // verus!
