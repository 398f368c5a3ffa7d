//! The graph of operations that the scheduler works on.

use vstd::prelude::*;

use crate::idlist::IdList;

verus! {

/// The scalar type of a node's value.
#[derive(Clone, Copy, Debug, PartialEq, Eq, Structural)]
pub enum DType {
    Void,
    Bool,
    Int8,
    Int16,
    Int32,
    Int64,
    UInt8,
    UInt16,
    UInt32,
    UInt64,
    FP8E4M3,
    FP8E5M2,
    FP8E4M3FNUZ,
    FP8E5M2FNUZ,
    Float16,
    BFloat16,
    Float32,
    Float64,
    Index,
    WeakInt,
    WeakFloat,
}

/// A constant. A float is held by the bits of its 64-bit IEEE encoding.
#[derive(Clone, Copy, Debug, PartialEq, Eq, Structural)]
pub enum ConstValue {
    Int(i64),
    UInt(u64),
    Float(u64),
    Bool(bool),
    Invalid,
}

/// What a loop axis is for.
#[derive(Clone, Copy, Debug, PartialEq, Eq, Structural)]
pub enum AxisType {
    Weak,
    Loop,
    Global,
    Local,
    Thread,
    Device,
    GroupReduce,
    Reduce,
    Upcast,
    Unroll,
}

/// The part of a grouped axis that its own final loop is.
pub const GROUP_LOOP: usize = 2;

/// The parts through which an axis comes out of another, from the outside in:
/// what is split out of an axis is a part of it.
#[derive(Clone, Copy, Debug, PartialEq, Eq, Structural)]
pub enum Steps {
    One(usize),
    Two(usize, usize),
    Three(usize, usize, usize),
    Four(usize, usize, usize, usize),
}

/// The number of a loop axis, before and after axes are renumbered, with the
/// steps that lead to a part of it.
#[derive(Clone, Copy, Debug, PartialEq, Eq, Structural)]
pub enum AxisId {
    Renumbered(usize),
    Unrenumbered(usize),
    RenumberedPath(usize, Steps),
}

impl Steps {
    /// The parts, from the outside in.
    pub open spec fn parts(self) -> Seq<usize> {
        match self {
            Steps::One(a) => seq![a],
            Steps::Two(a, b) => seq![a, b],
            Steps::Three(a, b, c) => seq![a, b, c],
            Steps::Four(a, b, c, d) => seq![a, b, c, d],
        }
    }
}

impl AxisId {
    /// The number of an axis.
    pub open spec fn root(self) -> usize {
        match self {
            AxisId::Renumbered(n) => n,
            AxisId::Unrenumbered(n) => n,
            AxisId::RenumberedPath(n, _) => n,
        }
    }

    /// The number of an axis and the parts that lead to it.
    pub open spec fn path_of(self) -> Seq<usize> {
        match self {
            AxisId::RenumberedPath(n, steps) => seq![n] + steps.parts(),
            _ => seq![self.root()],
        }
    }

    /// The number of an axis.
    pub fn number(self) -> (n: usize)
        ensures
            n == self.root(),
    {
        match self {
            AxisId::Renumbered(n) => n,
            AxisId::Unrenumbered(n) => n,
            AxisId::RenumberedPath(n, _) => n,
        }
    }

    /// The number of an axis and the parts that lead to it.
    pub fn path(self) -> (path: Vec<usize>)
        ensures
            path@ == self.path_of(),
    {
        let path = match self {
            AxisId::Renumbered(n) => vec![n],
            AxisId::Unrenumbered(n) => vec![n],
            AxisId::RenumberedPath(n, steps) => match steps {
                Steps::One(a) => vec![n, a],
                Steps::Two(a, b) => vec![n, a, b],
                Steps::Three(a, b, c) => vec![n, a, b, c],
                Steps::Four(a, b, c, d) => vec![n, a, b, c, d],
            },
        };
        assert(path@ =~= self.path_of());
        path
    }

    /// Whether an axis can be split: it is renumbered, and has fewer than four
    /// steps.
    pub open spec fn can_split(self) -> bool {
        match self {
            AxisId::Renumbered(_) => true,
            AxisId::Unrenumbered(_) => false,
            AxisId::RenumberedPath(_, steps) => !(steps is Four),
        }
    }

    /// A part of an axis, where it can be split.
    pub open spec fn part(self, part: usize) -> Option<AxisId> {
        match self {
            AxisId::Renumbered(n) => Some(AxisId::RenumberedPath(n, Steps::One(part))),
            AxisId::Unrenumbered(_) => None,
            AxisId::RenumberedPath(n, steps) => match steps {
                Steps::One(a) => Some(AxisId::RenumberedPath(n, Steps::Two(a, part))),
                Steps::Two(a, b) => Some(AxisId::RenumberedPath(n, Steps::Three(a, b, part))),
                Steps::Three(a, b, c) => Some(
                    AxisId::RenumberedPath(n, Steps::Four(a, b, c, part)),
                ),
                Steps::Four(..) => None,
            },
        }
    }

    /// A part of an axis, where it can be split. Its path is the path of the
    /// axis and one step more.
    pub fn child(self, part: usize) -> (axis: Option<AxisId>)
        ensures
            axis == self.part(part),
            match axis {
                Some(new) => self.can_split() && new.path_of() == self.path_of().push(part),
                None => !self.can_split(),
            },
    {
        let axis = match self {
            AxisId::Renumbered(n) => Some(AxisId::RenumberedPath(n, Steps::One(part))),
            AxisId::Unrenumbered(_) => None,
            AxisId::RenumberedPath(n, steps) => match steps {
                Steps::One(a) => Some(AxisId::RenumberedPath(n, Steps::Two(a, part))),
                Steps::Two(a, b) => Some(AxisId::RenumberedPath(n, Steps::Three(a, b, part))),
                Steps::Three(a, b, c) => Some(
                    AxisId::RenumberedPath(n, Steps::Four(a, b, c, part)),
                ),
                Steps::Four(..) => None,
            },
        };
        proof {
            if axis is Some {
                assert(axis->0.path_of() =~= self.path_of().push(part));
            }
        }
        axis
    }

    /// The axis of the loop that puts together what the loop of a grouped
    /// reduction has left in shared memory: the third part of its own axis, so
    /// that it is none of those that splitting gives.
    pub fn group_reduce_loop(self) -> (axis: Option<AxisId>)
        ensures
            axis == self.part(GROUP_LOOP),
    {
        self.child(GROUP_LOOP)
    }
}

/// An axis is what its path says: two of them with one path differ at most in
/// whether they are renumbered.
pub proof fn lemma_path_names_axis(a: AxisId, b: AxisId)
    requires
        a.path_of() == b.path_of(),
        a is Unrenumbered == b is Unrenumbered,
    ensures
        a == b,
{
    let (x, y) = (a.path_of(), b.path_of());
    assert(x.len() == y.len());
    assert(x[0] == y[0]);
    if x.len() > 1 {
        assert(x[1] == y[1]);
    }
    if x.len() > 2 {
        assert(x[2] == y[2]);
    }
    if x.len() > 3 {
        assert(x[3] == y[3]);
    }
    if x.len() > 4 {
        assert(x[4] == y[4]);
    }
}

/// Where storage lives.
#[derive(Clone, Copy, Debug, PartialEq, Eq, Structural)]
pub enum AddrSpace {
    Global,
    Local,
    Reg,
}

/// What is computed from one value.
#[derive(Clone, Copy, Debug, PartialEq, Eq, Structural)]
pub enum UnaryOp {
    Neg,
    Not,
    Sqrt,
    Exp2,
}

/// What is computed from two values.
#[derive(Clone, Copy, Debug, PartialEq, Eq, Structural)]
pub enum BinaryOp {
    Add,
    Sub,
    Mul,
    CDiv,
    CMod,
    FloorDiv,
    FloorMod,
    Fdiv,
    Max,
    Pow,
    And,
    Or,
    Xor,
    Shl,
    Shr,
    Lt,
    Eq,
    Ne,
}

/// What is computed from three values.
#[derive(Clone, Copy, Debug, PartialEq, Eq, Structural)]
pub enum TernaryOp {
    Where,
    MulAcc,
}

/// What the values of a loop are reduced with.
#[derive(Clone, Copy, Debug, PartialEq, Eq, Structural)]
pub enum ReduceOp {
    Add,
    Mul,
    Max,
    Min,
}

/// What a product of matrix fragments runs on.
#[derive(Clone, Copy, Debug, PartialEq, Eq, Structural)]
pub enum RendererDevice {
    Cpu,
    CudaSm80,
    CudaSm89,
}

/// The sizes of the matrices that a product of fragments takes.
#[derive(Clone, Copy, Debug, PartialEq, Eq, Structural)]
pub struct WmmaDims {
    pub n: usize,
    pub m: usize,
    pub k: usize,
}

/// What a product of matrix fragments is.
#[derive(Clone, Copy, Debug, PartialEq, Eq, Structural)]
pub struct WmmaMetadata {
    pub name: usize,
    pub dims: WmmaDims,
    pub dtype_in: DType,
    pub dtype_out: DType,
    pub device: RendererDevice,
    pub threads: usize,
    /// Whether it is yet to be expanded: the axes that its operands and its
    /// accumulator are unrolled along are its last three sources.
    pub upcast: bool,
}

impl WmmaMetadata {
    /// The same product, expanded.
    pub open spec fn flat(self) -> WmmaMetadata {
        WmmaMetadata {
            name: self.name,
            dims: self.dims,
            dtype_in: self.dtype_in,
            dtype_out: self.dtype_out,
            device: self.device,
            threads: self.threads,
            upcast: false,
        }
    }

    /// The same product, expanded; see `flat`.
    pub fn expanded(self) -> (flat: WmmaMetadata)
        ensures
            flat == self.flat(),
    {
        WmmaMetadata {
            name: self.name,
            dims: self.dims,
            dtype_in: self.dtype_in,
            dtype_out: self.dtype_out,
            device: self.device,
            threads: self.threads,
            upcast: false,
        }
    }
}

/// What a node does. The operands are the node's sources, in this order:
///
/// - `Range`: the extent, then what the loop waits for;
/// - `End`, `Reduce` and `Stage`: the computation, then the closed ranges; a
///   staged value that is not removable keeps its storage;
/// - `After`: the value that passes through, then what it waits for;
/// - `Index`: the buffer, then the indices;
/// - `Load`: the address, and where it is guarded the alternative and a guard;
/// - `Store`: the address, the value, and a guard if there is one;
/// - `Reshape` and `Expand`: the value, then its shape;
/// - `Call`: the body, then the arguments;
/// - `Param`: its shape;
/// - `Permute` and `Flip`: the value, then a constant for each axis;
/// - `Pad`: the value, then the stacks of what is put before and behind it;
/// - `Shrink`: the value, then the stacks of where it starts and of its sizes;
/// - `AxisReduce`: the value, whose leading axes are reduced, then the ranges;
/// - `If`: the condition, then the body; `EndIf`: its `If`;
/// - `Function`: the tuple that is its body, then the arguments;
/// - `Bind`: the variable, then its value;
/// - `Wmma`: the operands and the accumulator, and where it is yet to be expanded
///   the axes that each of them is unrolled along;
/// - `UpcastAxes`: the axes; `UpcastAxis`: its extent;
/// - `CustomI`: what the given code waits for; `Ins`: the operands of the
///   instruction.
#[derive(Clone, Copy, Debug, PartialEq, Eq, Structural)]
pub enum Op {
    Noop,
    Sink,
    Group,
    Const(ConstValue),
    Param { slot: usize, addrspace: Option<AddrSpace> },
    Variable { name: usize, low: i64, high: i64 },
    Buffer { slot: usize, space: AddrSpace, size: usize },
    Range { axis: AxisId, kind: AxisType },
    End,
    After,
    Cast,
    BitCast,
    Precast,
    Unary(UnaryOp),
    Binary(BinaryOp),
    Ternary(TernaryOp),
    Index,
    Load,
    Store,
    Reduce(ReduceOp),
    Stage { space: AddrSpace, removable: bool },
    Stack,
    Reshape,
    Expand,
    Call,
    If,
    EndIf,
    Copy,
    Contiguous,
    MStack,
    MSelect(usize),
    Wmma(WmmaMetadata),
    Multi(usize),
    Permute,
    Flip,
    Pad,
    Shrink,
    Detach,
    ContiguousBackward,
    AxisReduce { with: ReduceOp, count: usize },
    AllReduce(ReduceOp),
    Collective(ReduceOp),
    Function { precompile: bool },
    Tuple,
    GetTuple(usize),
    Bind,
    UpcastAxis(AxisId),
    UpcastAxes,
    CustomI { code: usize },
    Ins { name: usize, attribute: usize },
}

/// A node as the contracts see it.
pub struct NodeView {
    pub op: Op,
    pub dtype: DType,
    pub srcs: Seq<usize>,
}

/// One operation with its operands.
#[derive(Debug)]
pub struct Node {
    pub op: Op,
    pub dtype: DType,
    pub srcs: IdList,
}

impl View for Node {
    type V = NodeView;

    open spec fn view(&self) -> NodeView {
        NodeView { op: self.op, dtype: self.dtype, srcs: self.srcs@ }
    }
}

/// The number of operands that an operation may have.
pub open spec fn arity_ok(op: Op, count: nat) -> bool {
    match op {
        Op::Range { .. } => count >= 1,
        Op::End => count >= 2,
        Op::After => count >= 1,
        Op::Cast => count == 1,
        Op::BitCast => count == 1,
        Op::Precast => count == 1,
        Op::Unary(_) => count == 1,
        Op::Binary(_) => count == 2,
        Op::Ternary(_) => count == 3,
        Op::Index => count >= 1,
        Op::Load => count == 1 || count == 3,
        Op::Store => count == 2 || count == 3,
        Op::Reduce(_) => count >= 1,
        Op::Stage { .. } => count >= 1,
        Op::Reshape => count == 2,
        Op::Expand => count == 2,
        Op::Call => count >= 1,
        Op::If => count >= 1,
        Op::EndIf => count == 1,
        Op::Copy => count == 1,
        Op::Contiguous => count == 1,
        Op::MStack => count >= 1,
        Op::MSelect(_) => count == 1,
        Op::Wmma(form) => count == if form.upcast {
            6nat
        } else {
            3
        },
        Op::UpcastAxis(_) => count == 1,
        Op::UpcastAxes => true,
        Op::Multi(_) => count == 1,
        Op::Permute => count >= 1,
        Op::Flip => count >= 1,
        Op::Pad => count == 3,
        Op::Shrink => count == 3,
        Op::Detach => count == 1,
        Op::ContiguousBackward => count == 1,
        Op::AxisReduce { .. } => count >= 1,
        Op::AllReduce(_) => count == 1,
        Op::Function { .. } => count >= 1,
        Op::GetTuple(_) => count == 1,
        Op::Bind => count == 2,
        _ => true,
    }
}

/// A graph is well formed when every node comes behind its sources, has the
/// operands that its operation takes, and occurs once.
pub open spec fn dag_wf(dag: Seq<NodeView>) -> bool {
    &&& forall|i: int, k: int|
        0 <= i < dag.len() && 0 <= k < dag[i].srcs.len() ==> (#[trigger] dag[i].srcs[k]) < i
    &&& forall|i: int| 0 <= i < dag.len() ==> arity_ok((#[trigger] dag[i]).op, dag[i].srcs.len())
    &&& forall|i: int, j: int| 0 <= i < j < dag.len() ==> #[trigger] dag[i] != #[trigger] dag[j]
}

/// A graph with one more node, unless it already has that node.
pub open spec fn interned(dag: Seq<NodeView>, node: NodeView) -> Seq<NodeView> {
    if dag.contains(node) {
        dag
    } else {
        dag.push(node)
    }
}

/// The position of a node that the graph has.
pub open spec fn id_of(dag: Seq<NodeView>, node: NodeView) -> usize {
    choose|i: usize| i < dag.len() && #[trigger] dag[i as int] == node
}

/// A node stands at one position only.
pub proof fn lemma_id_of(dag: Seq<NodeView>, id: usize)
    requires
        dag_wf(dag),
        id < dag.len(),
    ensures
        id_of(dag, dag[id as int]) == id,
{
    let found = id_of(dag, dag[id as int]);
    assert(found < dag.len() && dag[found as int] == dag[id as int]);
    if found < id {
        assert(dag[found as int] != dag[id as int]);
    } else if id < found {
        assert(dag[id as int] != dag[found as int]);
    }
}

/// A new node whose sources are in the graph keeps the graph well formed.
proof fn lemma_push_wf(dag: Seq<NodeView>, node: NodeView)
    requires
        dag_wf(dag),
        !dag.contains(node),
        arity_ok(node.op, node.srcs.len()),
        forall|k: int| 0 <= k < node.srcs.len() ==> (#[trigger] node.srcs[k]) < dag.len(),
    ensures
        dag_wf(dag.push(node)),
{
    let next = dag.push(node);
    assert forall|i: int, k: int| 0 <= i < next.len() && 0 <= k < next[i].srcs.len() implies (
    #[trigger] next[i].srcs[k]) < i by {
        if i < dag.len() {
            assert(dag[i].srcs[k] < i);
        }
    }
    assert forall|i: int| 0 <= i < next.len() implies arity_ok(
        (#[trigger] next[i]).op,
        next[i].srcs.len(),
    ) by {
        if i < dag.len() {
            assert(arity_ok(dag[i].op, dag[i].srcs.len()));
        }
    }
    assert forall|i: int, j: int| 0 <= i < j < next.len() implies #[trigger] next[i]
        != #[trigger] next[j] by {
        assert(next[i] == dag[i]);
        if j < dag.len() {
            assert(next[j] == dag[j]);
        }
    }
}

/// A node that fits in a graph keeps the graph well formed.
pub proof fn lemma_interned_wf(dag: Seq<NodeView>, node: NodeView)
    requires
        dag_wf(dag),
        arity_ok(node.op, node.srcs.len()),
        forall|k: int| 0 <= k < node.srcs.len() ==> (#[trigger] node.srcs[k]) < dag.len(),
    ensures
        dag_wf(interned(dag, node)),
{
    if !dag.contains(node) {
        lemma_push_wf(dag, node);
    }
}

/// A graph of operations. A node is named by its position; two nodes with the
/// same operation, type and sources are one node.
#[derive(Debug)]
pub struct Graph {
    nodes: Vec<Node>,
}

impl View for Graph {
    type V = Seq<NodeView>;

    closed spec fn view(&self) -> Seq<NodeView> {
        Seq::new(self.nodes@.len(), |i: int| self.nodes@[i]@)
    }
}

impl Graph {
    /// The graph's invariant.
    pub open spec fn wf(&self) -> bool {
        &&& dag_wf(self@)
        &&& self@.len() <= usize::MAX
    }

    /// The empty graph.
    pub fn new() -> (graph: Graph)
        ensures
            graph.wf(),
            graph@ == Seq::<NodeView>::empty(),
    {
        let graph = Graph { nodes: Vec::new() };
        assert(graph@ =~= Seq::<NodeView>::empty());
        graph
    }

    /// The number of nodes.
    pub fn len(&self) -> (len: usize)
        ensures
            len == self@.len(),
    {
        self.nodes.len()
    }

    /// A node's operation.
    pub fn op(&self, id: usize) -> (op: Op)
        requires
            id < self@.len(),
        ensures
            op == self@[id as int].op,
    {
        self.nodes[id].op
    }

    /// The type of a node's value.
    pub fn dtype(&self, id: usize) -> (dtype: DType)
        requires
            id < self@.len(),
        ensures
            dtype == self@[id as int].dtype,
    {
        self.nodes[id].dtype
    }

    /// The number of a node's sources.
    pub fn source_count(&self, id: usize) -> (count: usize)
        requires
            id < self@.len(),
        ensures
            count == self@[id as int].srcs.len(),
    {
        self.nodes[id].srcs.len()
    }

    /// One of a node's sources.
    pub fn source(&self, id: usize, at: usize) -> (src: usize)
        requires
            self.wf(),
            id < self@.len(),
            at < self@[id as int].srcs.len(),
        ensures
            src == self@[id as int].srcs[at as int],
            src < id,
    {
        assert(self@[id as int].srcs[at as int] < id);
        self.nodes[id].srcs.get(at)
    }

    /// Whether `src` is one of a node's sources.
    pub fn has_source(&self, id: usize, src: usize) -> (found: bool)
        requires
            id < self@.len(),
        ensures
            found == self@[id as int].srcs.contains(src),
    {
        self.nodes[id].srcs.contains(src)
    }

    /// The node with this operation, type and sources: the one that the graph
    /// has, or else a new one behind all others.
    pub fn node(&mut self, op: Op, dtype: DType, srcs: &[usize]) -> (id: usize)
        requires
            old(self).wf(),
            arity_ok(op, srcs@.len()),
            forall|k: int| 0 <= k < srcs@.len() ==> (#[trigger] srcs@[k]) < old(self)@.len(),
        ensures
            final(self).wf(),
            final(self)@ == interned(old(self)@, NodeView { op, dtype, srcs: srcs@ }),
            id < final(self)@.len(),
            final(self)@[id as int] == (NodeView { op, dtype, srcs: srcs@ }),
            id == id_of(final(self)@, NodeView { op, dtype, srcs: srcs@ }),
    {
        let ghost want = NodeView { op, dtype, srcs: srcs@ };
        let list = IdList::from_slice(srcs);
        let len: usize = self.nodes.len();
        for at in 0..len
            invariant
                len == self.nodes@.len(),
                self@ == old(self)@,
                self.wf(),
                list@ == srcs@,
                want == (NodeView { op, dtype, srcs: srcs@ }),
                forall|i: int| 0 <= i < at ==> self@[i] != want,
        {
            let node = &self.nodes[at];
            if node.op == op && node.dtype == dtype && node.srcs.same(&list) {
                assert(self@[at as int] == want);
                proof {
                    lemma_id_of(self@, at);
                }
                return at;
            }
            assert(self@[at as int] != want);
        }
        assert(!self@.contains(want));
        proof {
            lemma_push_wf(self@, want);
        }
        self.nodes.push(Node { op, dtype, srcs: list });
        assert(self@ =~= old(self)@.push(want));
        assert(self.nodes.len() == self@.len());
        proof {
            lemma_id_of(self@, len);
        }
        len
    }
}

} // verus!
