//! A model of the pliron IR that the conversion builds.
//!
//! The model mirrors pliron's arena-based `Context`: operations, basic blocks and
//! regions live in arenas and refer to each other by index.  Operations are placed
//! in blocks and blocks in regions through explicit ordered lists, together with
//! the matching parent links.
use vstd::prelude::*;

verus! {

/// Signedness of an integer type.
#[derive(Clone, Copy, Debug, PartialEq, Eq, Structural)]
pub enum Signedness {
    Signed,
    Unsigned,
    Signless,
}

/// An integer type of the IR (pliron's `builtin.int`).
#[derive(Clone, Copy, Debug, PartialEq, Eq, Structural)]
pub struct IntegerType {
    pub width: u32,
    pub signedness: Signedness,
}

/// An SSA value of the IR: either the result of an operation or the argument of a block.
#[derive(Clone, Copy, Debug, PartialEq, Eq, Structural)]
pub enum Value {
    OpResult { op: usize, res_idx: usize },
    BlockArgument { block: usize, arg_idx: usize },
}

/// The operations the IR knows about.
#[derive(Clone, Copy, Debug, PartialEq, Eq, Structural)]
pub enum OpKind {
    /// `builtin.func`
    Func,
    /// `clif.iadd`
    IAdd,
    /// `clif.isub`
    ISub,
    /// `clif.imul`
    IMul,
    /// `clif.return`
    Return,
}

/// A function type: argument types and result types.
pub struct FunctionType {
    pub inputs: Vec<IntegerType>,
    pub results: Vec<IntegerType>,
}

/// The attributes of a `builtin.func` operation.
pub struct FuncAttrs {
    pub sym_name: String,
    pub func_type: FunctionType,
}

/// An operation: its kind, operands, result types and owned regions.
pub struct Operation {
    pub kind: OpKind,
    pub operands: Vec<Value>,
    pub result_types: Vec<IntegerType>,
    pub regions: Vec<usize>,
    pub attrs: Option<FuncAttrs>,
}

/// A basic block: its label and the types of its arguments.
pub struct BasicBlock {
    pub label: Option<String>,
    pub arg_types: Vec<IntegerType>,
}

/// A region, owned by an operation.
pub struct Region {
    pub parent_op: usize,
}

/// The IR context: arenas of operations, blocks and regions, and the placement of
/// operations in blocks and of blocks in regions.
pub struct Context {
    pub ops: Vec<Operation>,
    pub op_parent: Vec<Option<usize>>,
    pub blocks: Vec<BasicBlock>,
    pub block_ops: Vec<Vec<usize>>,
    pub block_parent: Vec<Option<usize>>,
    pub regions: Vec<Region>,
    pub region_blocks: Vec<Vec<usize>>,
}

impl Context {
    /// The number of operations created so far.
    pub open spec fn num_ops(&self) -> nat {
        self.ops@.len()
    }

    /// The number of blocks created so far.
    pub open spec fn num_blocks(&self) -> nat {
        self.blocks@.len()
    }

    /// The number of regions created so far.
    pub open spec fn num_regions(&self) -> nat {
        self.regions@.len()
    }

    /// The operations placed in block `b`, in order.
    pub open spec fn ops_of(&self, b: int) -> Seq<usize> {
        self.block_ops@[b]@
    }

    /// The blocks placed in region `r`, in order.
    pub open spec fn blocks_of(&self, r: int) -> Seq<usize> {
        self.region_blocks@[r]@
    }

    /// The value refers to an existing operation or block.
    pub open spec fn value_in_range(&self, v: Value) -> bool {
        match v {
            Value::OpResult { op, .. } => op < self.num_ops(),
            Value::BlockArgument { block, .. } => block < self.num_blocks(),
        }
    }

    /// The value refers to an existing result or block argument, which therefore has a type.
    pub open spec fn value_has_type(&self, v: Value) -> bool {
        match v {
            Value::OpResult { op, res_idx } => op < self.num_ops() && res_idx
                < self.ops@[op as int].result_types@.len(),
            Value::BlockArgument { block, arg_idx } => block < self.num_blocks() && arg_idx
                < self.blocks@[block as int].arg_types@.len(),
        }
    }

    /// The type of a value that has one.
    pub open spec fn spec_value_type(&self, v: Value) -> IntegerType {
        match v {
            Value::OpResult { op, res_idx } => self.ops@[op as int].result_types@[res_idx as int],
            Value::BlockArgument { block, arg_idx } => self.blocks@[block as int].arg_types@[arg_idx as int],
        }
    }

    /// Operation `o` is placed in some block.
    pub open spec fn op_linked(&self, o: int) -> bool {
        self.op_parent@[o] is Some
    }

    /// Block `b` is placed in some region.
    pub open spec fn block_linked(&self, b: int) -> bool {
        self.block_parent@[b] is Some
    }

    /// Well-formedness: the side tables have the arena sizes, every index is in range,
    /// and the placement lists agree with the parent links, without repetition.
    pub open spec fn wf(&self) -> bool {
        &&& self.regions@.len() <= usize::MAX
        &&& self.op_parent@.len() == self.ops@.len()
        &&& self.block_ops@.len() == self.blocks@.len()
        &&& self.block_parent@.len() == self.blocks@.len()
        &&& self.region_blocks@.len() == self.regions@.len()
        &&& forall|o: int, j: int|
            0 <= o < self.ops@.len() && 0 <= j < self.ops@[o].operands@.len() ==> self.value_in_range(
                #[trigger] self.ops@[o].operands@[j],
            )
        &&& forall|o: int, k: int|
            0 <= o < self.ops@.len() && 0 <= k < self.ops@[o].regions@.len() ==> #[trigger] self.ops@[o].regions@[k]
                < self.regions@.len()
        &&& forall|r: int|
            0 <= r < self.regions@.len() ==> #[trigger] self.regions@[r].parent_op < self.ops@.len()
        &&& forall|b: int, i: int|
            0 <= b < self.blocks@.len() && 0 <= i < self.ops_of(b).len() ==> {
                &&& #[trigger] self.ops_of(b)[i] < self.ops@.len()
                &&& self.op_parent@[self.ops_of(b)[i] as int] == Some(b as usize)
            }
        &&& forall|b: int| 0 <= b < self.blocks@.len() ==> (#[trigger] self.ops_of(b)).no_duplicates()
        &&& forall|o: int|
            0 <= o < self.ops@.len() && (#[trigger] self.op_parent@[o]) is Some ==> {
                &&& self.op_parent@[o]->0 < self.blocks@.len()
                &&& self.ops_of(self.op_parent@[o]->0 as int).contains(o as usize)
            }
        &&& forall|r: int, i: int|
            0 <= r < self.regions@.len() && 0 <= i < self.blocks_of(r).len() ==> {
                &&& #[trigger] self.blocks_of(r)[i] < self.blocks@.len()
                &&& self.block_parent@[self.blocks_of(r)[i] as int] == Some(r as usize)
            }
        &&& forall|r: int| 0 <= r < self.regions@.len() ==> (#[trigger] self.blocks_of(r)).no_duplicates()
        &&& forall|b: int|
            0 <= b < self.blocks@.len() && (#[trigger] self.block_parent@[b]) is Some ==> {
                &&& self.block_parent@[b]->0 < self.regions@.len()
                &&& self.blocks_of(self.block_parent@[b]->0 as int).contains(b as usize)
            }
    }

    /// `self` is `old` with new objects appended to the arenas: every operation,
    /// block and region of `old` keeps its contents.
    pub open spec fn extends(&self, old: &Context) -> bool {
        &&& old.ops@.len() <= self.ops@.len()
        &&& old.blocks@.len() <= self.blocks@.len()
        &&& old.regions@.len() <= self.regions@.len()
        &&& forall|o: int| 0 <= o < old.ops@.len() ==> #[trigger] self.ops@[o] == old.ops@[o]
        &&& forall|b: int| 0 <= b < old.blocks@.len() ==> #[trigger] self.blocks@[b] == old.blocks@[b]
        &&& forall|r: int| 0 <= r < old.regions@.len() ==> #[trigger] self.regions@[r] == old.regions@[r]
    }

    /// Creates an empty context.
    pub fn new() -> (c: Context)
        ensures
            c.wf(),
            c.ops@.len() == 0,
            c.blocks@.len() == 0,
            c.regions@.len() == 0,
    {
        Context {
            ops: Vec::new(),
            op_parent: Vec::new(),
            blocks: Vec::new(),
            block_ops: Vec::new(),
            block_parent: Vec::new(),
            regions: Vec::new(),
            region_blocks: Vec::new(),
        }
    }

    /// Creates a new, unplaced operation with `num_regions` fresh empty regions.
    #[verifier::spinoff_prover]
    pub fn create_op(
        &mut self,
        kind: OpKind,
        operands: Vec<Value>,
        result_types: Vec<IntegerType>,
        num_regions: usize,
        attrs: Option<FuncAttrs>,
    ) -> (op: usize)
        requires
            old(self).wf(),
            forall|j: int| 0 <= j < operands@.len() ==> old(self).value_in_range(#[trigger] operands@[j]),
            old(self).regions@.len() + num_regions <= usize::MAX,
        ensures
            final(self).wf(),
            final(self).extends(old(self)),
            op == old(self).ops@.len(),
            final(self).ops@.len() == old(self).ops@.len() + 1,
            final(self).blocks@.len() == old(self).blocks@.len(),
            final(self).regions@.len() == old(self).regions@.len() + num_regions,
            final(self).ops@[op as int].kind == kind,
            final(self).ops@[op as int].operands@ == operands@,
            final(self).ops@[op as int].result_types@ == result_types@,
            final(self).ops@[op as int].attrs == attrs,
            final(self).ops@[op as int].regions@ == Seq::new(
                num_regions as nat,
                |k: int| (old(self).regions@.len() + k) as usize,
            ),
            forall|k: int|
                old(self).regions@.len() <= k < final(self).regions@.len() ==> (#[trigger] final(self).regions@[k]).parent_op == op,
            final(self).op_parent@ == old(self).op_parent@.push(None),
            final(self).block_ops@ == old(self).block_ops@,
            final(self).block_parent@ == old(self).block_parent@,
            final(self).region_blocks@.len() == final(self).regions@.len(),
            forall|r: int|
                0 <= r < old(self).regions@.len() ==> #[trigger] final(self).region_blocks@[r]
                    == old(self).region_blocks@[r],
            forall|r: int|
                old(self).regions@.len() <= r < final(self).regions@.len() ==> #[trigger] final(self).region_blocks@[r]@.len() == 0,
    {
        let op = self.ops.len();
        let first_region = self.regions.len();
        let mut regions: Vec<usize> = Vec::new();
        let mut k: usize = 0;
        while k < num_regions
            invariant
                first_region + num_regions <= usize::MAX,
                k <= num_regions,
                regions@ == Seq::new(k as nat, |i: int| (first_region + i) as usize),
            decreases num_regions - k,
        {
            regions.push(first_region + k);
            k = k + 1;
            proof {
                assert(regions@ =~= Seq::new(k as nat, |i: int| (first_region + i) as usize));
            }
        }
        self.ops.push(Operation { kind, operands, result_types, regions, attrs });
        self.op_parent.push(None);
        let mut k: usize = 0;
        while k < num_regions
            invariant
                self.ops@.len() == op + 1,
                forall|o: int| 0 <= o < op ==> #[trigger] self.ops@[o] == old(self).ops@[o],
                self.ops@[op as int].kind == kind,
                self.ops@[op as int].operands@ == operands@,
                self.ops@[op as int].result_types@ == result_types@,
                self.ops@[op as int].attrs == attrs,
                self.ops@[op as int].regions@ == Seq::new(
                    num_regions as nat,
                    |i: int| (first_region + i) as usize,
                ),
                self.op_parent@ == old(self).op_parent@.push(None),
                self.blocks@ == old(self).blocks@,
                self.block_ops@ == old(self).block_ops@,
                self.block_parent@ == old(self).block_parent@,
                op == old(self).ops@.len(),
                first_region == old(self).regions@.len(),
                first_region + num_regions <= usize::MAX,
                k <= num_regions,
                self.regions@.len() == first_region + k,
                self.region_blocks@.len() == first_region + k,
                forall|r: int| 0 <= r < first_region ==> #[trigger] self.regions@[r] == old(self).regions@[r],
                forall|r: int|
                    first_region <= r < self.regions@.len() ==> (#[trigger] self.regions@[r]).parent_op
                        == op,
                forall|r: int|
                    0 <= r < first_region ==> #[trigger] self.region_blocks@[r]
                        == old(self).region_blocks@[r],
                forall|r: int|
                    first_region <= r < self.regions@.len() ==> #[trigger] self.region_blocks@[r]@.len()
                        == 0,
            decreases num_regions - k,
        {
            self.regions.push(Region { parent_op: op });
            self.region_blocks.push(Vec::new());
            k = k + 1;
        }
        proof {
            let s = *self;
            let o = *old(self);
            assert forall|oo: int, j: int|
                0 <= oo < s.ops@.len() && 0 <= j < s.ops@[oo].operands@.len() implies s.value_in_range(
                #[trigger] s.ops@[oo].operands@[j],
            ) by {
                if oo < op {
                    assert(o.value_in_range(o.ops@[oo].operands@[j]));
                }
            }
            assert forall|oo: int, kk: int|
                0 <= oo < s.ops@.len() && 0 <= kk < s.ops@[oo].regions@.len() implies #[trigger] s.ops@[oo].regions@[kk]
                < s.regions@.len() by {
                if oo < op {
                    assert(o.ops@[oo].regions@[kk] < o.regions@.len());
                }
            }
            assert forall|b: int, i: int|
                0 <= b < s.blocks@.len() && 0 <= i < s.ops_of(b).len() implies {
                    &&& #[trigger] s.ops_of(b)[i] < s.ops@.len()
                    &&& s.op_parent@[s.ops_of(b)[i] as int] == Some(b as usize)
                } by {
                assert(o.ops_of(b) == s.ops_of(b));
            }
            assert forall|b: int| 0 <= b < s.blocks@.len() implies (#[trigger] s.ops_of(b)).no_duplicates() by {
                assert(o.ops_of(b) == s.ops_of(b));
            }
            assert forall|oo: int|
                0 <= oo < s.ops@.len() && (#[trigger] s.op_parent@[oo]) is Some implies {
                    &&& s.op_parent@[oo]->0 < s.blocks@.len()
                    &&& s.ops_of(s.op_parent@[oo]->0 as int).contains(oo as usize)
                } by {
                assert(o.op_parent@[oo] is Some);
            }
            assert forall|r: int, i: int|
                0 <= r < s.regions@.len() && 0 <= i < s.blocks_of(r).len() implies {
                    &&& #[trigger] s.blocks_of(r)[i] < s.blocks@.len()
                    &&& s.block_parent@[s.blocks_of(r)[i] as int] == Some(r as usize)
                } by {
                assert(r < first_region);
                assert(o.blocks_of(r) == s.blocks_of(r));
            }
            assert forall|r: int| 0 <= r < s.regions@.len() implies (#[trigger] s.blocks_of(r)).no_duplicates() by {
                if r < first_region {
                    assert(o.blocks_of(r) == s.blocks_of(r));
                }
            }
            assert forall|b: int|
                0 <= b < s.blocks@.len() && (#[trigger] s.block_parent@[b]) is Some implies {
                    &&& s.block_parent@[b]->0 < s.regions@.len()
                    &&& s.blocks_of(s.block_parent@[b]->0 as int).contains(b as usize)
                } by {
                let r = s.block_parent@[b]->0 as int;
                assert(o.blocks_of(r) == s.blocks_of(r));
            }
        }
        op
    }

    /// Creates a new, unplaced basic block.
    pub fn create_block(&mut self, label: Option<String>, arg_types: Vec<IntegerType>) -> (b: usize)
        requires
            old(self).wf(),
        ensures
            final(self).wf(),
            final(self).extends(old(self)),
            b == old(self).blocks@.len(),
            final(self).blocks@.len() == old(self).blocks@.len() + 1,
            final(self).ops@ == old(self).ops@,
            final(self).regions@ == old(self).regions@,
            final(self).blocks@[b as int].label == label,
            final(self).blocks@[b as int].arg_types@ == arg_types@,
            final(self).op_parent@ == old(self).op_parent@,
            final(self).block_ops@.len() == old(self).block_ops@.len() + 1,
            forall|bb: int| 0 <= bb < b ==> #[trigger] final(self).block_ops@[bb] == old(self).block_ops@[bb],
            final(self).block_ops@[b as int]@.len() == 0,
            final(self).block_parent@ == old(self).block_parent@.push(None),
            final(self).region_blocks@ == old(self).region_blocks@,
    {
        let b = self.blocks.len();
        self.blocks.push(BasicBlock { label, arg_types });
        self.block_ops.push(Vec::new());
        self.block_parent.push(None);
        proof {
            let s = *self;
            let o = *old(self);
            assert forall|bb: int, i: int|
                0 <= bb < s.blocks@.len() && 0 <= i < s.ops_of(bb).len() implies {
                    &&& #[trigger] s.ops_of(bb)[i] < s.ops@.len()
                    &&& s.op_parent@[s.ops_of(bb)[i] as int] == Some(bb as usize)
                } by {
                assert(bb < b);
                assert(o.ops_of(bb) == s.ops_of(bb));
            }
            assert forall|bb: int| 0 <= bb < s.blocks@.len() implies (#[trigger] s.ops_of(bb)).no_duplicates() by {
                if bb < b {
                    assert(o.ops_of(bb) == s.ops_of(bb));
                }
            }
            assert forall|oo: int|
                0 <= oo < s.ops@.len() && (#[trigger] s.op_parent@[oo]) is Some implies {
                    &&& s.op_parent@[oo]->0 < s.blocks@.len()
                    &&& s.ops_of(s.op_parent@[oo]->0 as int).contains(oo as usize)
                } by {
                let bb = o.op_parent@[oo]->0 as int;
                assert(o.ops_of(bb) == s.ops_of(bb));
            }
            assert forall|r: int, i: int|
                0 <= r < s.regions@.len() && 0 <= i < s.blocks_of(r).len() implies {
                    &&& #[trigger] s.blocks_of(r)[i] < s.blocks@.len()
                    &&& s.block_parent@[s.blocks_of(r)[i] as int] == Some(r as usize)
                } by {
                assert(o.blocks_of(r) == s.blocks_of(r));
            }
            assert forall|r: int| 0 <= r < s.regions@.len() implies (#[trigger] s.blocks_of(r)).no_duplicates() by {
                assert(o.blocks_of(r) == s.blocks_of(r));
            }
            assert forall|bb: int|
                0 <= bb < s.blocks@.len() && (#[trigger] s.block_parent@[bb]) is Some implies {
                    &&& s.block_parent@[bb]->0 < s.regions@.len()
                    &&& s.blocks_of(s.block_parent@[bb]->0 as int).contains(bb as usize)
                } by {
                let r = s.block_parent@[bb]->0 as int;
                assert(o.block_parent@[bb] is Some);
                assert(o.blocks_of(r) == s.blocks_of(r));
            }
        }
        b
    }

    /// Places the unplaced operation `op` at the front of block `block`.
    pub fn insert_op_at_front(&mut self, op: usize, block: usize)
        requires
            old(self).wf(),
            op < old(self).ops@.len(),
            block < old(self).blocks@.len(),
            !old(self).op_linked(op as int),
        ensures
            final(self).wf(),
            final(self).ops@ == old(self).ops@,
            final(self).blocks@ == old(self).blocks@,
            final(self).regions@ == old(self).regions@,
            final(self).op_parent@ == old(self).op_parent@.update(op as int, Some(block)),
            final(self).block_ops@.len() == old(self).block_ops@.len(),
            final(self).ops_of(block as int) == seq![op].add(old(self).ops_of(block as int)),
            forall|b: int|
                0 <= b < old(self).blocks@.len() && b != block ==> #[trigger] final(self).block_ops@[b]
                    == old(self).block_ops@[b],
            final(self).block_parent@ == old(self).block_parent@,
            final(self).region_blocks@ == old(self).region_blocks@,
    {
        self.block_ops[block].insert(0, op);
        self.op_parent.set(op, Some(block));
        proof {
            let s = *self;
            let o = *old(self);
            assert(s.ops_of(block as int) =~= seq![op].add(o.ops_of(block as int)));
            self.lemma_op_inserted(o, op, block, 0);
        }
    }

    /// Places the unplaced operation `op` right after the placed operation `prev`.
    pub fn insert_op_after(&mut self, op: usize, prev: usize)
        requires
            old(self).wf(),
            op < old(self).ops@.len(),
            prev < old(self).ops@.len(),
            !old(self).op_linked(op as int),
            old(self).op_linked(prev as int),
        ensures
            final(self).wf(),
            final(self).ops@ == old(self).ops@,
            final(self).blocks@ == old(self).blocks@,
            final(self).regions@ == old(self).regions@,
            ({
                let b = old(self).op_parent@[prev as int]->0 as int;
                let s = old(self).ops_of(b);
                &&& 0 <= s.index_of(prev) < s.len()
                &&& s[s.index_of(prev)] == prev
                &&& final(self).op_parent@ == old(self).op_parent@.update(op as int, Some(b as usize))
                &&& final(self).ops_of(b) == s.insert(s.index_of(prev) + 1, op)
                &&& forall|bb: int|
                    0 <= bb < old(self).blocks@.len() && bb != b ==> #[trigger] final(self).block_ops@[bb]
                        == old(self).block_ops@[bb]
            }),
            final(self).block_ops@.len() == old(self).block_ops@.len(),
            final(self).block_parent@ == old(self).block_parent@,
            final(self).region_blocks@ == old(self).region_blocks@,
    {
        let block = self.op_parent[prev].unwrap();
        let ghost s = self.ops_of(block as int);
        proof {
            assert(s.contains(prev));
        }
        let len = self.block_ops[block].len();
        let mut pos: usize = 0;
        while self.block_ops[block][pos] != prev
            invariant
                self == old(self),
                len == s.len(),
                block < self.blocks@.len(),
                s == self.ops_of(block as int),
                s.contains(prev),
                self.wf(),
                pos < s.len(),
                forall|j: int| 0 <= j < pos ==> s[j] != prev,
            decreases s.len() - pos,
        {
            pos = pos + 1;
            proof {
                if pos == s.len() {
                    let w = choose|j: int| 0 <= j < s.len() && s[j] == prev;
                    assert(s[w] == prev);
                }
            }
        }
        proof {
            assert(s[pos as int] == prev);
            assert(s.index_of(prev) == pos) by {
                let w = s.index_of(prev);
                assert(0 <= w < s.len() && s[w] == prev);
                assert(s.no_duplicates());
            }
        }
        self.block_ops[block].insert(pos + 1, op);
        self.op_parent.set(op, Some(block));
        proof {
            self.lemma_op_inserted(*old(self), op, block, (pos + 1) as int);
        }
    }

    #[verifier::spinoff_prover]
    proof fn lemma_op_inserted(&self, o: Context, op: usize, block: usize, pos: int)
        requires
            o.wf(),
            op < o.ops@.len(),
            block < o.blocks@.len(),
            !o.op_linked(op as int),
            0 <= pos <= o.ops_of(block as int).len(),
            self.ops@ == o.ops@,
            self.blocks@ == o.blocks@,
            self.regions@ == o.regions@,
            self.op_parent@ == o.op_parent@.update(op as int, Some(block)),
            self.block_ops@.len() == o.block_ops@.len(),
            self.ops_of(block as int) == o.ops_of(block as int).insert(pos, op),
            forall|b: int|
                0 <= b < o.blocks@.len() && b != block ==> #[trigger] self.block_ops@[b] == o.block_ops@[b],
            self.block_parent@ == o.block_parent@,
            self.region_blocks@ == o.region_blocks@,
        ensures
            self.wf(),
    {
        let s = *self;
        let ob = o.ops_of(block as int);
        assert(!ob.contains(op)) by {
            if ob.contains(op) {
                let i = choose|i: int| 0 <= i < ob.len() && ob[i] == op;
                assert(o.op_parent@[ob[i] as int] == Some(block));
            }
        }
        assert forall|b: int, i: int|
            0 <= b < s.blocks@.len() && 0 <= i < s.ops_of(b).len() implies {
                &&& #[trigger] s.ops_of(b)[i] < s.ops@.len()
                &&& s.op_parent@[s.ops_of(b)[i] as int] == Some(b as usize)
            } by {
            if b == block {
                if i < pos {
                    assert(s.ops_of(b)[i] == ob[i]);
                } else if i > pos {
                    assert(s.ops_of(b)[i] == ob[i - 1]);
                }
            } else {
                assert(s.ops_of(b) == o.ops_of(b));
                assert(s.ops_of(b)[i] != op);
            }
        }
        assert forall|b: int| 0 <= b < s.blocks@.len() implies (#[trigger] s.ops_of(b)).no_duplicates() by {
            if b == block {
                let t = s.ops_of(b);
                assert forall|i: int, j: int| 0 <= i < t.len() && 0 <= j < t.len() && i != j implies t[i] != t[j] by {
                    assert(ob.no_duplicates());
                    if i != pos && j != pos {
                        let ii = if i < pos { i } else { i - 1 };
                        let jj = if j < pos { j } else { j - 1 };
                        assert(t[i] == ob[ii]);
                        assert(t[j] == ob[jj]);
                    } else if i == pos {
                        let jj = if j < pos { j } else { j - 1 };
                        assert(t[j] == ob[jj]);
                    } else {
                        let ii = if i < pos { i } else { i - 1 };
                        assert(t[i] == ob[ii]);
                    }
                }
            } else {
                assert(s.ops_of(b) == o.ops_of(b));
            }
        }
        assert forall|oo: int|
            0 <= oo < s.ops@.len() && (#[trigger] s.op_parent@[oo]) is Some implies {
                &&& s.op_parent@[oo]->0 < s.blocks@.len()
                &&& s.ops_of(s.op_parent@[oo]->0 as int).contains(oo as usize)
            } by {
            if oo == op {
                assert(s.ops_of(block as int)[pos] == op);
            } else {
                let b = o.op_parent@[oo]->0 as int;
                assert(o.ops_of(b).contains(oo as usize));
                if b == block {
                    let i = choose|i: int| 0 <= i < ob.len() && ob[i] == oo as usize;
                    assert(s.ops_of(block as int) == ob.insert(pos, op));
                    if i < pos {
                        assert(s.ops_of(block as int)[i] == ob[i]);
                    } else {
                        assert(s.ops_of(block as int)[i + 1] == ob[i]);
                    }
                } else {
                    assert(s.ops_of(b) == o.ops_of(b));
                }
            }
        }
        assert forall|r: int, i: int|
            0 <= r < s.regions@.len() && 0 <= i < s.blocks_of(r).len() implies {
                &&& #[trigger] s.blocks_of(r)[i] < s.blocks@.len()
                &&& s.block_parent@[s.blocks_of(r)[i] as int] == Some(r as usize)
            } by {
            assert(o.blocks_of(r) == s.blocks_of(r));
        }
        assert forall|r: int| 0 <= r < s.regions@.len() implies (#[trigger] s.blocks_of(r)).no_duplicates() by {
            assert(o.blocks_of(r) == s.blocks_of(r));
        }
        assert forall|b: int|
            0 <= b < s.blocks@.len() && (#[trigger] s.block_parent@[b]) is Some implies {
                &&& s.block_parent@[b]->0 < s.regions@.len()
                &&& s.blocks_of(s.block_parent@[b]->0 as int).contains(b as usize)
            } by {
            let r = s.block_parent@[b]->0 as int;
            assert(o.block_parent@[b] is Some);
            assert(o.blocks_of(r) == s.blocks_of(r));
        }
        assert forall|oo: int, j: int|
            0 <= oo < s.ops@.len() && 0 <= j < s.ops@[oo].operands@.len() implies s.value_in_range(
                #[trigger] s.ops@[oo].operands@[j],
            ) by {
            assert(o.value_in_range(o.ops@[oo].operands@[j]));
        }
    }

    /// Places the unplaced block `block` at the front of region `region`.
    pub fn insert_block_at_front(&mut self, block: usize, region: usize)
        requires
            old(self).wf(),
            block < old(self).blocks@.len(),
            region < old(self).regions@.len(),
            !old(self).block_linked(block as int),
        ensures
            final(self).wf(),
            final(self).ops@ == old(self).ops@,
            final(self).blocks@ == old(self).blocks@,
            final(self).regions@ == old(self).regions@,
            final(self).op_parent@ == old(self).op_parent@,
            final(self).block_ops@ == old(self).block_ops@,
            final(self).block_parent@ == old(self).block_parent@.update(block as int, Some(region)),
            final(self).region_blocks@.len() == old(self).region_blocks@.len(),
            final(self).blocks_of(region as int) == seq![block].add(old(self).blocks_of(region as int)),
            forall|r: int|
                0 <= r < old(self).regions@.len() && r != region ==> #[trigger] final(self).region_blocks@[r]
                    == old(self).region_blocks@[r],
    {
        self.region_blocks[region].insert(0, block);
        self.block_parent.set(block, Some(region));
        proof {
            let s = *self;
            let o = *old(self);
            assert(s.blocks_of(region as int) =~= seq![block].add(o.blocks_of(region as int)));
            self.lemma_block_inserted(o, block, region, 0);
        }
    }

    /// Places the unplaced block `block` right after the placed block `prev`.
    pub fn insert_block_after(&mut self, block: usize, prev: usize)
        requires
            old(self).wf(),
            block < old(self).blocks@.len(),
            prev < old(self).blocks@.len(),
            !old(self).block_linked(block as int),
            old(self).block_linked(prev as int),
        ensures
            final(self).wf(),
            final(self).ops@ == old(self).ops@,
            final(self).blocks@ == old(self).blocks@,
            final(self).regions@ == old(self).regions@,
            final(self).op_parent@ == old(self).op_parent@,
            final(self).block_ops@ == old(self).block_ops@,
            ({
                let r = old(self).block_parent@[prev as int]->0 as int;
                let s = old(self).blocks_of(r);
                &&& 0 <= s.index_of(prev) < s.len()
                &&& s[s.index_of(prev)] == prev
                &&& final(self).block_parent@ == old(self).block_parent@.update(block as int, Some(r as usize))
                &&& final(self).blocks_of(r) == s.insert(s.index_of(prev) + 1, block)
                &&& forall|rr: int|
                    0 <= rr < old(self).regions@.len() && rr != r ==> #[trigger] final(self).region_blocks@[rr]
                        == old(self).region_blocks@[rr]
            }),
            final(self).region_blocks@.len() == old(self).region_blocks@.len(),
    {
        let region = self.block_parent[prev].unwrap();
        let ghost s = self.blocks_of(region as int);
        proof {
            assert(s.contains(prev));
        }
        let len = self.region_blocks[region].len();
        let mut pos: usize = 0;
        while self.region_blocks[region][pos] != prev
            invariant
                self == old(self),
                len == s.len(),
                region < self.regions@.len(),
                s == self.blocks_of(region as int),
                s.contains(prev),
                self.wf(),
                pos < s.len(),
                forall|j: int| 0 <= j < pos ==> s[j] != prev,
            decreases s.len() - pos,
        {
            pos = pos + 1;
            proof {
                if pos == s.len() {
                    let w = choose|j: int| 0 <= j < s.len() && s[j] == prev;
                    assert(s[w] == prev);
                }
            }
        }
        proof {
            assert(s[pos as int] == prev);
            assert(s.index_of(prev) == pos) by {
                let w = s.index_of(prev);
                assert(0 <= w < s.len() && s[w] == prev);
                assert(s.no_duplicates());
            }
        }
        self.region_blocks[region].insert(pos + 1, block);
        self.block_parent.set(block, Some(region));
        proof {
            self.lemma_block_inserted(*old(self), block, region, (pos + 1) as int);
        }
    }

    #[verifier::spinoff_prover]
    proof fn lemma_block_inserted(&self, o: Context, block: usize, region: usize, pos: int)
        requires
            o.wf(),
            block < o.blocks@.len(),
            region < o.regions@.len(),
            !o.block_linked(block as int),
            0 <= pos <= o.blocks_of(region as int).len(),
            self.ops@ == o.ops@,
            self.blocks@ == o.blocks@,
            self.regions@ == o.regions@,
            self.op_parent@ == o.op_parent@,
            self.block_ops@ == o.block_ops@,
            self.block_parent@ == o.block_parent@.update(block as int, Some(region)),
            self.region_blocks@.len() == o.region_blocks@.len(),
            self.blocks_of(region as int) == o.blocks_of(region as int).insert(pos, block),
            forall|r: int|
                0 <= r < o.regions@.len() && r != region ==> #[trigger] self.region_blocks@[r]
                    == o.region_blocks@[r],
        ensures
            self.wf(),
    {
        let s = *self;
        let ob = o.blocks_of(region as int);
        assert(!ob.contains(block)) by {
            if ob.contains(block) {
                let i = choose|i: int| 0 <= i < ob.len() && ob[i] == block;
                assert(o.block_parent@[ob[i] as int] == Some(region));
            }
        }
        assert forall|r: int, i: int|
            0 <= r < s.regions@.len() && 0 <= i < s.blocks_of(r).len() implies {
                &&& #[trigger] s.blocks_of(r)[i] < s.blocks@.len()
                &&& s.block_parent@[s.blocks_of(r)[i] as int] == Some(r as usize)
            } by {
            if r == region {
                if i < pos {
                    assert(s.blocks_of(r)[i] == ob[i]);
                } else if i > pos {
                    assert(s.blocks_of(r)[i] == ob[i - 1]);
                }
            } else {
                assert(s.blocks_of(r) == o.blocks_of(r));
                assert(s.blocks_of(r)[i] != block);
            }
        }
        assert forall|r: int| 0 <= r < s.regions@.len() implies (#[trigger] s.blocks_of(r)).no_duplicates() by {
            if r == region {
                let t = s.blocks_of(r);
                assert forall|i: int, j: int| 0 <= i < t.len() && 0 <= j < t.len() && i != j implies t[i] != t[j] by {
                    assert(ob.no_duplicates());
                    if i != pos && j != pos {
                        let ii = if i < pos { i } else { i - 1 };
                        let jj = if j < pos { j } else { j - 1 };
                        assert(t[i] == ob[ii]);
                        assert(t[j] == ob[jj]);
                    } else if i == pos {
                        let jj = if j < pos { j } else { j - 1 };
                        assert(t[j] == ob[jj]);
                    } else {
                        let ii = if i < pos { i } else { i - 1 };
                        assert(t[i] == ob[ii]);
                    }
                }
            } else {
                assert(s.blocks_of(r) == o.blocks_of(r));
            }
        }
        assert forall|b: int|
            0 <= b < s.blocks@.len() && (#[trigger] s.block_parent@[b]) is Some implies {
                &&& s.block_parent@[b]->0 < s.regions@.len()
                &&& s.blocks_of(s.block_parent@[b]->0 as int).contains(b as usize)
            } by {
            if b == block {
                assert(s.blocks_of(region as int)[pos] == block);
            } else {
                let r = o.block_parent@[b]->0 as int;
                assert(o.blocks_of(r).contains(b as usize));
                if r == region {
                    let i = choose|i: int| 0 <= i < ob.len() && ob[i] == b as usize;
                    assert(s.blocks_of(region as int) == ob.insert(pos, block));
                    if i < pos {
                        assert(s.blocks_of(region as int)[i] == ob[i]);
                    } else {
                        assert(s.blocks_of(region as int)[i + 1] == ob[i]);
                    }
                } else {
                    assert(s.blocks_of(r) == o.blocks_of(r));
                }
            }
        }
        assert forall|b: int, i: int|
            0 <= b < s.blocks@.len() && 0 <= i < s.ops_of(b).len() implies {
                &&& #[trigger] s.ops_of(b)[i] < s.ops@.len()
                &&& s.op_parent@[s.ops_of(b)[i] as int] == Some(b as usize)
            } by {
            assert(o.ops_of(b) == s.ops_of(b));
        }
        assert forall|b: int| 0 <= b < s.blocks@.len() implies (#[trigger] s.ops_of(b)).no_duplicates() by {
            assert(o.ops_of(b) == s.ops_of(b));
        }
        assert forall|oo: int|
            0 <= oo < s.ops@.len() && (#[trigger] s.op_parent@[oo]) is Some implies {
                &&& s.op_parent@[oo]->0 < s.blocks@.len()
                &&& s.ops_of(s.op_parent@[oo]->0 as int).contains(oo as usize)
            } by {
            let b = o.op_parent@[oo]->0 as int;
            assert(o.ops_of(b) == s.ops_of(b));
        }
        assert forall|oo: int, j: int|
            0 <= oo < s.ops@.len() && 0 <= j < s.ops@[oo].operands@.len() implies s.value_in_range(
                #[trigger] s.ops@[oo].operands@[j],
            ) by {
            assert(o.value_in_range(o.ops@[oo].operands@[j]));
        }
    }

    /// The type of a value that has one.
    pub fn value_type(&self, v: Value) -> (t: IntegerType)
        requires
            self.value_has_type(v),
        ensures
            t == self.spec_value_type(v),
    {
        match v {
            Value::OpResult { op, res_idx } => self.ops[op].result_types[res_idx],
            Value::BlockArgument { block, arg_idx } => self.blocks[block].arg_types[arg_idx],
        }
    }
}

} // verus!
