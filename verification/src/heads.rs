//! What the nodes of a graph are compared by, taken from the graph: for each
//! its operation, then its argument, then its type.

use vstd::prelude::*;

use crate::args::{
    arg_code, const_code, const_key, const_key_of, head_code, lemma_lexical_equal,
    lexical, numbers, points, rank_heads, ranked, ArgKey, Head, ParamKey,
};
use crate::graph::{
    AddrSpace, AxisType, BinaryOp, DType, Graph, NodeView, Op, ReduceOp, TernaryOp, UnaryOp, RendererDevice, WmmaMetadata};
use crate::keys::{int_order, Keys};
use crate::text::{decimal, push_decimal};

verus! {

/// The number of a stack.
pub const STACK_NUMBER: u16 = 16;

/// The number of a constant.
pub const CONST_NUMBER: u16 = 61;

/// The number of the address space of a parameter that names none.
pub const DEFAULT_SPACE: u8 = 4;

/// The number that an operation is compared by.
pub open spec fn op_number(op: Op) -> u16 {
    match op {
        Op::Noop => 0,
        Op::Sink => 1,
        Op::Group => 2,
        Op::Param { .. } => 3,
        Op::Variable { .. } => 4,
        Op::Buffer { .. } => 5,
        Op::Range { .. } => 6,
        Op::End => 7,
        Op::After => 8,
        Op::Cast => 9,
        Op::BitCast => 10,
        Op::Precast => 11,
        Op::Index => 12,
        Op::Load => 13,
        Op::Store => 14,
        Op::Reduce(_) => 15,
        Op::Stack => STACK_NUMBER,
        Op::Stage { .. } => 17,
        Op::Reshape => 18,
        Op::Expand => 19,
        Op::Call => 20,
        Op::If => 21,
        Op::EndIf => 22,
        Op::Copy => 23,
        Op::Contiguous => 24,
        Op::MStack => 25,
        Op::MSelect(_) => 26,
        Op::Wmma(_) => 27,
        Op::Multi(_) => 28,
        Op::Permute => 29,
        Op::Flip => 30,
        Op::Pad => 31,
        Op::Shrink => 32,
        Op::Detach => 33,
        Op::ContiguousBackward => 34,
        Op::AxisReduce { .. } => 35,
        Op::AllReduce(_) => 36,
        Op::Collective(_) => 37,
        Op::Function { .. } => 38,
        Op::Tuple => 39,
        Op::GetTuple(_) => 40,
        Op::Bind => 41,
        Op::UpcastAxis(_) => 42,
        Op::UpcastAxes => 43,
        Op::CustomI { .. } => 44,
        Op::Ins { .. } => 64,
        Op::Const(_) => CONST_NUMBER,
        Op::Unary(own) => match own {
            UnaryOp::Neg => 62,
            UnaryOp::Not => 63,
            UnaryOp::Sqrt => 86,
            UnaryOp::Exp2 => 65,
        },
        Op::Binary(own) => match own {
            BinaryOp::Add => 66,
            BinaryOp::Sub => 67,
            BinaryOp::Mul => 68,
            BinaryOp::CDiv => 69,
            BinaryOp::CMod => 70,
            BinaryOp::FloorDiv => 71,
            BinaryOp::FloorMod => 72,
            BinaryOp::Fdiv => 73,
            BinaryOp::Max => 74,
            BinaryOp::Pow => 75,
            BinaryOp::And => 76,
            BinaryOp::Or => 77,
            BinaryOp::Xor => 78,
            BinaryOp::Shl => 79,
            BinaryOp::Shr => 80,
            BinaryOp::Lt => 81,
            BinaryOp::Eq => 82,
            BinaryOp::Ne => 83,
        },
        Op::Ternary(own) => match own {
            TernaryOp::Where => 84,
            TernaryOp::MulAcc => 85,
        },
    }
}

/// The number that an operation is compared by. See `op_number`.
pub fn op_value(op: Op) -> (number: u16)
    ensures
        number == op_number(op),
{
    match op {
        Op::Noop => 0,
        Op::Sink => 1,
        Op::Group => 2,
        Op::Param { .. } => 3,
        Op::Variable { .. } => 4,
        Op::Buffer { .. } => 5,
        Op::Range { .. } => 6,
        Op::End => 7,
        Op::After => 8,
        Op::Cast => 9,
        Op::BitCast => 10,
        Op::Precast => 11,
        Op::Index => 12,
        Op::Load => 13,
        Op::Store => 14,
        Op::Reduce(_) => 15,
        Op::Stack => STACK_NUMBER,
        Op::Stage { .. } => 17,
        Op::Reshape => 18,
        Op::Expand => 19,
        Op::Call => 20,
        Op::If => 21,
        Op::EndIf => 22,
        Op::Copy => 23,
        Op::Contiguous => 24,
        Op::MStack => 25,
        Op::MSelect(_) => 26,
        Op::Wmma(_) => 27,
        Op::Multi(_) => 28,
        Op::Permute => 29,
        Op::Flip => 30,
        Op::Pad => 31,
        Op::Shrink => 32,
        Op::Detach => 33,
        Op::ContiguousBackward => 34,
        Op::AxisReduce { .. } => 35,
        Op::AllReduce(_) => 36,
        Op::Collective(_) => 37,
        Op::Function { .. } => 38,
        Op::Tuple => 39,
        Op::GetTuple(_) => 40,
        Op::Bind => 41,
        Op::UpcastAxis(_) => 42,
        Op::UpcastAxes => 43,
        Op::CustomI { .. } => 44,
        Op::Ins { .. } => 64,
        Op::Const(_) => CONST_NUMBER,
        Op::Unary(own) => match own {
            UnaryOp::Neg => 62,
            UnaryOp::Not => 63,
            UnaryOp::Sqrt => 86,
            UnaryOp::Exp2 => 65,
        },
        Op::Binary(own) => match own {
            BinaryOp::Add => 66,
            BinaryOp::Sub => 67,
            BinaryOp::Mul => 68,
            BinaryOp::CDiv => 69,
            BinaryOp::CMod => 70,
            BinaryOp::FloorDiv => 71,
            BinaryOp::FloorMod => 72,
            BinaryOp::Fdiv => 73,
            BinaryOp::Max => 74,
            BinaryOp::Pow => 75,
            BinaryOp::And => 76,
            BinaryOp::Or => 77,
            BinaryOp::Xor => 78,
            BinaryOp::Shl => 79,
            BinaryOp::Shr => 80,
            BinaryOp::Lt => 81,
            BinaryOp::Eq => 82,
            BinaryOp::Ne => 83,
        },
        Op::Ternary(own) => match own {
            TernaryOp::Where => 84,
            TernaryOp::MulAcc => 85,
        },
    }
}

/// The number of what a loop is for.
pub open spec fn kind_number(kind: AxisType) -> u16 {
    match kind {
        AxisType::Weak => 0,
        AxisType::Loop => 1,
        AxisType::Global => 2,
        AxisType::Local => 3,
        AxisType::Thread => 4,
        AxisType::Device => 5,
        AxisType::GroupReduce => 6,
        AxisType::Reduce => 7,
        AxisType::Upcast => 8,
        AxisType::Unroll => 9,
    }
}

/// The number of what a loop is for. See `kind_number`.
pub fn axis_type_value(kind: AxisType) -> (number: u16)
    ensures
        number == kind_number(kind),
{
    match kind {
        AxisType::Weak => 0,
        AxisType::Loop => 1,
        AxisType::Global => 2,
        AxisType::Local => 3,
        AxisType::Thread => 4,
        AxisType::Device => 5,
        AxisType::GroupReduce => 6,
        AxisType::Reduce => 7,
        AxisType::Upcast => 8,
        AxisType::Unroll => 9,
    }
}

/// The number of what a loop is reduced with.
pub open spec fn reduce_number(with: ReduceOp) -> u16 {
    match with {
        ReduceOp::Add => 0,
        ReduceOp::Mul => 1,
        ReduceOp::Max => 2,
        ReduceOp::Min => 3,
    }
}

/// The number of what a loop is reduced with. See `reduce_number`.
pub fn reduce_value(with: ReduceOp) -> (number: u16)
    ensures
        number == reduce_number(with),
{
    match with {
        ReduceOp::Add => 0,
        ReduceOp::Mul => 1,
        ReduceOp::Max => 2,
        ReduceOp::Min => 3,
    }
}

/// The number that a type is compared by. Indices and long integers have one.
pub open spec fn dtype_number(dtype: DType) -> u16 {
    match dtype {
        DType::Void => 0,
        DType::Bool => 1,
        DType::Int8 => 2,
        DType::Int16 => 3,
        DType::Int32 => 4,
        DType::Int64 | DType::Index => 5,
        DType::UInt8 => 6,
        DType::UInt16 => 7,
        DType::UInt32 => 8,
        DType::UInt64 => 9,
        DType::FP8E4M3 => 10,
        DType::FP8E5M2 => 11,
        DType::FP8E4M3FNUZ => 12,
        DType::FP8E5M2FNUZ => 13,
        DType::Float16 => 14,
        DType::BFloat16 => 15,
        DType::Float32 => 16,
        DType::Float64 => 17,
        DType::WeakInt => 18,
        DType::WeakFloat => 19,
    }
}

/// The number that a type is compared by. See `dtype_number`.
pub fn dtype_key(dtype: DType) -> (number: u16)
    ensures
        number == dtype_number(dtype),
{
    match dtype {
        DType::Void => 0,
        DType::Bool => 1,
        DType::Int8 => 2,
        DType::Int16 => 3,
        DType::Int32 => 4,
        DType::Int64 | DType::Index => 5,
        DType::UInt8 => 6,
        DType::UInt16 => 7,
        DType::UInt32 => 8,
        DType::UInt64 => 9,
        DType::FP8E4M3 => 10,
        DType::FP8E5M2 => 11,
        DType::FP8E4M3FNUZ => 12,
        DType::FP8E5M2FNUZ => 13,
        DType::Float16 => 14,
        DType::BFloat16 => 15,
        DType::Float32 => 16,
        DType::Float64 => 17,
        DType::WeakInt => 18,
        DType::WeakFloat => 19,
    }
}

/// The number of an address space.
pub open spec fn space_number(space: Option<AddrSpace>) -> u8 {
    match space {
        Some(AddrSpace::Global) => 1,
        Some(AddrSpace::Local) => 2,
        Some(AddrSpace::Reg) => 3,
        None => DEFAULT_SPACE,
    }
}

fn space_value(space: Option<AddrSpace>) -> (number: u8)
    ensures
        number == space_number(space),
{
    match space {
        Some(AddrSpace::Global) => 1,
        Some(AddrSpace::Local) => 2,
        Some(AddrSpace::Reg) => 3,
        None => DEFAULT_SPACE,
    }
}

/// A parameter as numbers: its name, and its address space.
pub open spec fn param_code(name: usize, space: Option<AddrSpace>) -> Seq<int> {
    seq![5int] + points(decimal(name as nat)) + seq![-1, space_number(space) as int]
}

/// Numbers that are an argument as numbers.
pub open spec fn list_code(list: Seq<int>) -> Seq<int> {
    seq![6int] + list + seq![-1int]
}

/// The number of what a product runs on: by the name of the backend.
pub open spec fn device_number(device: RendererDevice) -> usize {
    match device {
        RendererDevice::Cpu => 0,
        RendererDevice::CudaSm80 => 1,
        RendererDevice::CudaSm89 => 1,
    }
}

fn device_value(device: RendererDevice) -> (number: usize)
    ensures
        number == device_number(device),
{
    match device {
        RendererDevice::Cpu => 0,
        RendererDevice::CudaSm80 | RendererDevice::CudaSm89 => 1,
    }
}

/// What a product is compared by: its sizes, the type that it takes, its
/// backend and its threads.
pub open spec fn product_numbers(form: WmmaMetadata) -> Seq<int> {
    seq![
        form.dims.n as int,
        form.dims.m as int,
        form.dims.k as int,
        dtype_number(form.dtype_in) as int,
        device_number(form.device) as int,
        form.threads as int,
    ]
}

fn product_arg(form: WmmaMetadata) -> (key: ArgKey)
    ensures
        arg_code(key) == op_arg_code(Op::Wmma(form)),
        key matches ArgKey::Wmma(list, upcast) && numbers(list@) == product_numbers(form) && upcast
            == form.upcast,
{
    let list: Vec<usize> = vec![
        form.dims.n,
        form.dims.m,
        form.dims.k,
        dtype_key(form.dtype_in) as usize,
        device_value(form.device),
        form.threads,
    ];
    assert(numbers(list@) =~= product_numbers(form));
    ArgKey::Wmma(list, form.upcast)
}

/// The argument of an operation as numbers; an operation without one has that
/// of nothing.
pub open spec fn op_arg_code(op: Op) -> Seq<int> {
    match op {
        Op::Const(value) => seq![2int] + const_code(const_key_of(value)),
        Op::Range { axis, kind } => seq![4int] + numbers(axis.path_of()) + seq![
            -1,
            kind_number(kind) as int,
        ],
        Op::Reduce(with) => seq![3, reduce_number(with) as int, -1],
        Op::AllReduce(with) => seq![3, reduce_number(with) as int, -1],
        Op::Collective(with) => seq![3, reduce_number(with) as int, -1],
        Op::AxisReduce { with, count } => seq![3, reduce_number(with) as int] + Seq::new(
            count as nat,
            |i: int| i,
        ) + seq![-1int],
        Op::Param { slot, addrspace } => param_code(slot, addrspace),
        Op::Variable { name, .. } => param_code(name, None),
        Op::Buffer { slot, space, size } => list_code(
            seq![slot as int, space_number(Some(space)) as int, size as int],
        ),
        Op::Stage { space, removable } => list_code(
            seq![
                space_number(Some(space)) as int,
                if removable {
                    1
                } else {
                    0
                },
            ],
        ),
        Op::Wmma(form) => seq![7int] + product_numbers(form) + seq![
            -1,
            if form.upcast {
                1
            } else {
                0
            },
        ],
        Op::MSelect(n) => list_code(seq![n as int]),
        Op::Multi(n) => list_code(seq![n as int]),
        Op::GetTuple(n) => list_code(seq![n as int]),
        Op::CustomI { code } => list_code(seq![code as int]),
        Op::Ins { name, attribute } => list_code(seq![name as int, attribute as int]),
        Op::Function { precompile } => list_code(
            seq![
                if precompile {
                    1
                } else {
                    0
                },
            ],
        ),
        _ => seq![0],
    }
}

/// What a node is compared by before its sources are, as numbers.
pub open spec fn node_code(node: NodeView) -> Seq<int> {
    seq![op_number(node.op) as int] + op_arg_code(node.op) + seq![dtype_number(node.dtype) as int]
}

fn param_arg(name: usize, space: Option<AddrSpace>) -> (key: ParamKey)
    ensures
        key.name@ == decimal(name as nat),
        key.addrspace == Some(space_number(space)),
{
    let mut text = String::new();
    push_decimal(&mut text, name as u64);
    assert(text@ =~= decimal(name as nat));
    ParamKey { name: text, addrspace: Some(space_value(space)) }
}

/// The key of a parameter or a variable: its name and its address space, which
/// is never unset.
pub fn param_key(op: Op) -> (key: Option<ParamKey>)
    ensures
        match key {
            Some(found) => {
                &&& (op is Param || op is Variable)
                &&& found.addrspace == Some(
                    space_number(
                        match op {
                            Op::Param { addrspace, .. } => addrspace,
                            _ => None,
                        },
                    ),
                )
                &&& found.name@ == decimal(
                    match op {
                        Op::Param { slot, .. } => slot as nat,
                        Op::Variable { name, .. } => name as nat,
                        _ => 0,
                    },
                )
            },
            None => !(op is Param || op is Variable),
        },
{
    match op {
        Op::Param { slot, addrspace } => Some(param_arg(slot, addrspace)),
        Op::Variable { name, .. } => Some(param_arg(name, None)),
        _ => None,
    }
}

fn reduce_arg(with: ReduceOp, count: usize) -> (key: ArgKey)
    ensures
        arg_code(key) == seq![3, reduce_number(with) as int] + Seq::new(count as nat, |i: int| i)
            + seq![-1int],
{
    let mut axes: Vec<usize> = Vec::new();
    let mut n: usize = 0;
    while n < count
        invariant
            n <= count,
            axes@.len() == n,
            forall|i: int| 0 <= i < n ==> #[trigger] axes@[i] == i,
        decreases count - n,
    {
        axes.push(n);
        n += 1;
    }
    assert(numbers(axes@) =~= Seq::new(count as nat, |i: int| i));
    ArgKey::Reduce(reduce_value(with), axes)
}

/// The argument of an operation as it is compared; see `op_arg_code`.
pub fn arg_key(op: Op) -> (key: ArgKey)
    ensures
        arg_code(key) == op_arg_code(op),
{
    let key = match op {
        Op::Const(value) => ArgKey::Const(const_key(value)),
        Op::Range { axis, kind } => ArgKey::Range(axis.path(), axis_type_value(kind)),
        Op::Reduce(with) | Op::AllReduce(with) | Op::Collective(with) => reduce_arg(with, 0),
        Op::AxisReduce { with, count } => reduce_arg(with, count),
        Op::Param { slot, addrspace } => ArgKey::Param(param_arg(slot, addrspace)),
        Op::Variable { name, .. } => ArgKey::Param(param_arg(name, None)),
        Op::Buffer { slot, space, size } => ArgKey::Numbers(
            vec![slot, space_value(Some(space)) as usize, size],
        ),
        Op::Stage { space, removable } => ArgKey::Numbers(
            vec![
                space_value(Some(space)) as usize,
                if removable {
                    1
                } else {
                    0
                },
            ],
        ),
        Op::Wmma(form) => product_arg(form),
        Op::MSelect(n) | Op::Multi(n) | Op::GetTuple(n) => ArgKey::Numbers(vec![n]),
        Op::CustomI { code } => ArgKey::Numbers(vec![code]),
        Op::Ins { name, attribute } => ArgKey::Numbers(vec![name, attribute]),
        Op::Function { precompile } => ArgKey::Numbers(
            vec![
                if precompile {
                    1
                } else {
                    0
                },
            ],
        ),
        _ => ArgKey::Nothing,
    };
    assert(arg_code(key) =~= op_arg_code(op));
    key
}

/// What each node is compared by before its sources are; see `node_code`.
pub fn heads_of(graph: &Graph) -> (heads: Vec<Head>)
    requires
        graph.wf(),
    ensures
        heads@.len() == graph@.len(),
        forall|i: int|
            0 <= i < heads@.len() ==> head_code(#[trigger] heads@[i]) == node_code(graph@[i]),
{
    let mut heads: Vec<Head> = Vec::new();
    let len: usize = graph.len();
    let mut n: usize = 0;
    while n < len
        invariant
            graph.wf(),
            len == graph@.len(),
            n <= len,
            heads@.len() == n,
            forall|i: int|
                0 <= i < n ==> head_code(#[trigger] heads@[i]) == node_code(graph@[i]),
        decreases len - n,
    {
        let op = graph.op(n);
        let head = Head {
            op: op_value(op),
            arg: arg_key(op),
            dtype: dtype_key(graph.dtype(n)),
        };
        assert(head_code(head) =~= node_code(graph@[n as int]));
        heads.push(head);
        n += 1;
    }
    heads
}

/// Whether the ranks of nodes are in the order of what they are compared by.
pub open spec fn ranks_nodes(dag: Seq<NodeView>, ranks: Seq<u32>) -> bool {
    &&& ranks.len() == dag.len()
    &&& forall|i: int, j: int|
        0 <= i < dag.len() && 0 <= j < dag.len() ==> int_order(
            (#[trigger] ranks[i]) as int,
            (#[trigger] ranks[j]) as int,
        ) == lexical(node_code(dag[i]), node_code(dag[j]), 0)
}

/// The keys of the nodes of a graph: heads are ranked by operation, argument
/// and type. A constant of several lanes is a stack of constants, so that its
/// lanes are its sources.
pub fn keys_of(graph: &Graph) -> (keys: Keys)
    requires
        graph.wf(),
        graph@.len() <= u32::MAX,
    ensures
        keys.covers(graph@.len()),
        ranks_nodes(graph@, keys.heads@),
        forall|i: int| 0 <= i < keys.lanes@.len() ==> (#[trigger] keys.lanes@[i])@.len() == 0,
{
    let heads = heads_of(graph);
    let ranks = rank_heads(&heads);
    let mut lanes: Vec<Vec<u32>> = Vec::new();
    let len: usize = graph.len();
    let mut n: usize = 0;
    while n < len
        invariant
            n <= len,
            lanes@.len() == n,
            forall|i: int| 0 <= i < n ==> (#[trigger] lanes@[i])@.len() == 0,
        decreases len - n,
    {
        lanes.push(Vec::new());
        n += 1;
    }
    proof {
        assert(ranked(heads@, ranks@));
        assert forall|i: int, j: int| 0 <= i < graph@.len() && 0 <= j < graph@.len() implies
            int_order((#[trigger] ranks@[i]) as int, (#[trigger] ranks@[j]) as int) == lexical(
            node_code(graph@[i]),
            node_code(graph@[j]),
            0,
        ) by {
            assert(head_code(heads@[i]) == node_code(graph@[i]));
            assert(head_code(heads@[j]) == node_code(graph@[j]));
        }
    }
    Keys { heads: ranks, lanes }
}

/// Constants of an index and of a long integer with one value have one rank.
pub proof fn lemma_index_ranks_as_long(dag: Seq<NodeView>, ranks: Seq<u32>, i: int, j: int)
    requires
        ranks_nodes(dag, ranks),
        0 <= i < dag.len(),
        0 <= j < dag.len(),
        dag[i].op == dag[j].op,
        dag[i].dtype == DType::Index,
        dag[j].dtype == DType::Int64,
    ensures
        ranks[i] == ranks[j],
{
    lemma_lexical_equal(node_code(dag[i]), node_code(dag[j]), 0);
    assert(int_order(ranks[i] as int, ranks[j] as int) == lexical(
        node_code(dag[i]),
        node_code(dag[j]),
        0,
    ));
}

} // verus!
