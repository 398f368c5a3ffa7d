//! Eight-bit floats on targets that store them but do not compute with them.

use vstd::prelude::*;

use crate::builders::{cast_node, const_node, lemma_interned_keeps, put, Built, ONE, TWO};
use crate::carried::lemma_words_come_back;
use crate::decomps::decompose;
use crate::encodings::{
    exponent, is_nan, is_negative, is_special, is_word, magnitude, mantissa, unit_of, widened,
};
use crate::fold::{fold_alone, value_of, Known};
use crate::graph::{
    arity_ok, dag_wf, AddrSpace, BinaryOp, ConstValue, DType, Graph, NodeView, Op, TernaryOp,
    UnaryOp,
};
use crate::storage::{format_of, lowered, raised, unary_node};
use crate::stored_words::{is_plain, lemma_stored_word_comes_back, stores_word};
use crate::topo::reaches;
use crate::values::{has_room, knows_leaves};

verus! {

/// The exponent field of an eight-bit float: four bits above three of mantissa.
pub open spec fn exponent8(bits: u8) -> int {
    ((bits / 8) % 16) as int
}

/// The mantissa field of an eight-bit float.
pub open spec fn mantissa8(bits: u8) -> int {
    (bits % 8) as int
}

/// Whether the topmost bit is set.
pub open spec fn negative8(bits: u8) -> bool {
    bits >= 128
}

/// The encoding that is no number: all bits of exponent and mantissa are set.
pub open spec fn is_nan8(bits: u8) -> bool {
    exponent8(bits) == 15 && mantissa8(bits) == 7
}

/// The 32-bit encoding of an eight-bit float that is a number. A zero exponent
/// gives a zero.
pub open spec fn widened_bits(bits: u8) -> int {
    let sign: int = if negative8(bits) {
        0x8000_0000
    } else {
        0
    };
    if exponent8(bits) == 0 {
        sign
    } else {
        sign + (exponent8(bits) + 120) * 0x80_0000 + mantissa8(bits) * 0x10_0000
    }
}

/// What an eight-bit float is stored as, once it has been computed with in 32
/// bits: a number comes back as it is; where the exponent is zero, a zero of the
/// same sign does; and what is no number loses its sign.
pub open spec fn stored_bits(bits: u8) -> u64 {
    if is_nan8(bits) {
        0x7f
    } else if exponent8(bits) == 0 {
        if negative8(bits) {
            0x80
        } else {
            0
        }
    } else {
        bits as u64
    }
}

/// The fields of an eight-bit float are those of its encoding.
proof fn lemma_eight_bits(bits: u8)
    ensures
        ({
            let (narrow, wide) = (format_of(DType::FP8E4M3)->0, format_of(DType::Float32)->0);
            let w = bits as int;
            &&& is_word(narrow, w)
            &&& exponent(narrow, w) == exponent8(bits)
            &&& mantissa(narrow, w) == mantissa8(bits)
            &&& magnitude(narrow, w) == exponent8(bits) * 8 + mantissa8(bits)
            &&& is_negative(narrow, w) == negative8(bits)
            &&& is_special(narrow, w) == is_nan8(bits)
            &&& is_nan(narrow, w) == is_nan8(bits)
            &&& unit_of(narrow, wide) == 0x10_0000
        }),
{
}

/// The bits of a float that an eight-bit one is raised to are the 32-bit encoding
/// of the same number.
pub proof fn lemma_eight_bits_are_widened(bits: u8)
    requires
        !is_nan8(bits),
    ensures
        ({
            let (narrow, wide) = (format_of(DType::FP8E4M3)->0, format_of(DType::Float32)->0);
            widened(narrow, wide, bits as int) == widened_bits(bits)
        }),
{
    lemma_eight_bits(bits);
    let (narrow, wide) = (format_of(DType::FP8E4M3)->0, format_of(DType::Float32)->0);
    let (e, m) = (exponent8(bits), mantissa8(bits));
    assert((wide.bias - narrow.bias) * wide.fraction == 120 * 0x80_0000);
    assert(magnitude(narrow, bits as int) * unit_of(narrow, wide) == (e * 8 + m) * 0x10_0000);
}

/// An eight-bit float that is raised to 32 bits and lowered again is folded to
/// what it is stored as.
pub proof fn lemma_eight_bits_round_trip(
    dag: Seq<NodeView>,
    known: Known,
    word: usize,
    bits: u8,
)
    requires
        dag_wf(dag),
        knows_leaves(dag, known),
        dag.len() + 55 < usize::MAX,
        word < dag.len(),
        dag[word as int].dtype == DType::UInt8,
        value_of(dag, known, word) == Some(ConstValue::UInt(bits as u64)),
    ensures
        ({
            let (narrow, wide) = (format_of(DType::FP8E4M3)->0, format_of(DType::Float32)->0);
            let up = raised(dag, narrow, wide, DType::Float32, word);
            let low = lowered(up.dag, narrow, wide, up.id);
            value_of(low.dag, known, low.id) == Some(ConstValue::UInt(stored_bits(bits)))
        }),
{
    reveal(has_room);
    lemma_eight_bits(bits);
    lemma_words_come_back(dag, known, DType::FP8E4M3, DType::Float32, word, bits as u64);
}

/// What a small graph that stores a word reaches.
proof fn lemma_small_store(dag: Seq<NodeView>, root: usize, bits: u8)
    requires
        dag_wf(dag),
        root < dag.len(),
        ({
            let node = dag[root as int];
            let (address, value) = (node.srcs[0], node.srcs[1]);
            let at = dag[address as int];
            &&& node.op is Store
            &&& node.dtype == DType::Void
            &&& node.srcs.len() == 2
            &&& at.op is Index
            &&& at.dtype == DType::FP8E4M3
            &&& at.srcs.len() == 2
            &&& dag[at.srcs[0] as int].op is Buffer
            &&& dag[at.srcs[0] as int].srcs.len() == 0
            &&& dag[at.srcs[1] as int].op is Const
            &&& dag[at.srcs[1] as int].srcs.len() == 0
            &&& dag[value as int] == unary_node(
                Op::BitCast,
                DType::FP8E4M3,
                dag[value as int].srcs[0],
            )
            &&& dag[dag[value as int].srcs[0] as int] == const_node(
                ConstValue::UInt(bits as u64),
                DType::UInt8,
            )
        }),
    ensures
        stores_word(dag, root, DType::FP8E4M3, bits as u64),
{
    let node = dag[root as int];
    let (address, value) = (node.srcs[0], node.srcs[1]);
    assert forall|x: usize| #[trigger] reaches(dag, root, x) implies x == root || x == value
        || is_plain(dag[x as int].op) by {
        if x != root {
            let k = choose|k: int|
                #![trigger dag[root as int].srcs[k]]
                0 <= k < dag[root as int].srcs.len() && dag[root as int].srcs[k] < root && reaches(
                    dag,
                    dag[root as int].srcs[k],
                    x,
                );
            let one = dag[root as int].srcs[k];
            assert(one == address || one == value);
            if x != one {
                let j = choose|j: int|
                    #![trigger dag[one as int].srcs[j]]
                    0 <= j < dag[one as int].srcs.len() && dag[one as int].srcs[j] < one && reaches(
                        dag,
                        dag[one as int].srcs[j],
                        x,
                    );
                let leaf = dag[one as int].srcs[j];
                assert(dag[leaf as int].srcs.len() == 0);
                assert(x == leaf);
            }
        }
    }
}

/// Reads a word as an eight-bit float, stores it where such floats are computed
/// with in 32 bits, and folds what is stored.
pub fn round_trip(bits: u8) -> (value: ConstValue)
    ensures
        value == ConstValue::UInt(stored_bits(bits)),
{
    let fp8 = DType::FP8E4M3;
    let mut graph = Graph::new();
    let storage: usize = graph.leaf(Op::Buffer { slot: 0, space: AddrSpace::Global, size: 8 }, fp8);
    let at: usize = graph.index_const(0);
    let address: usize = graph.binary(Op::Index, fp8, storage, at);
    let word: usize = graph.constant(ConstValue::UInt(bits as u64), DType::UInt8);
    let read: usize = graph.unary(Op::BitCast, fp8, word);
    let root: usize = graph.binary(Op::Store, DType::Void, address, read);
    let ghost dag = graph@;
    proof {
        lemma_small_store(dag, root, bits);
        lemma_eight_bits(bits);
    }
    let new: usize = decompose(&mut graph, root, fp8, DType::Float32);
    proof {
        lemma_stored_word_comes_back(
            dag,
            root,
            fp8,
            DType::Float32,
            bits as u64,
            Built { dag: graph@, id: new },
        );
    }
    let stored: usize = graph.source(new, 1);
    match fold_alone(&graph, stored) {
        Some(value) => value,
        None => ConstValue::Invalid,
    }
}

/// The kinds of nodes that eight-bit floats occur in.
#[derive(Clone, Copy, Debug, PartialEq, Eq, Structural)]
pub enum Fp8Op {
    Unary,
    Binary,
    Compare,
    Where,
    MulAccLike,
    CastTo,
    CastFrom,
}

/// The constants of the sample nodes.
pub open spec fn fp8_const(bits: u64) -> NodeView {
    const_node(ConstValue::Float(bits), DType::FP8E4M3)
}

/// Whether a node computes with eight-bit floats: an operation of that type, a
/// comparison of two of them, or a conversion that does not go through f32.
pub open spec fn widens(dag: Seq<NodeView>, id: usize) -> bool {
    let node = dag[id as int];
    match node.op {
        Op::Unary(_) | Op::Ternary(_) => node.dtype == DType::FP8E4M3,
        Op::Binary(_) => node.dtype == DType::FP8E4M3 || (node.dtype == DType::Bool && (
        dag[node.srcs[0] as int].dtype == DType::FP8E4M3 || dag[node.srcs[1] as int].dtype
            == DType::FP8E4M3)),
        Op::Cast => {
            let from = dag[node.srcs[0] as int].dtype;
            ||| node.dtype == DType::FP8E4M3 && from != DType::Float32
            ||| from == DType::FP8E4M3 && node.dtype != DType::Float32
        },
        _ => false,
    }
}

/// The source as it is computed with: an eight-bit float is converted.
pub open spec fn as_wide(dag: Seq<NodeView>, src: usize) -> Built {
    if dag[src as int].dtype == DType::FP8E4M3 {
        put(dag, cast_node(src, DType::Float32))
    } else {
        Built { dag, id: src }
    }
}

/// The first `n` sources as they are computed with.
pub open spec fn wide_sources(dag: Seq<NodeView>, srcs: Seq<usize>, n: nat) -> (Seq<NodeView>, Seq<
    usize,
>)
    decreases n,
{
    if n == 0 {
        (dag, Seq::empty())
    } else {
        let (rest, list) = wide_sources(dag, srcs, (n - 1) as nat);
        let next = as_wide(rest, srcs[n - 1]);
        (next.dag, list.push(next.id))
    }
}

/// The node that computes in 32 bits what a node computes with eight-bit
/// floats. A comparison keeps its result; the result of any other operation is
/// converted back, and a conversion goes through 32 bits.
pub open spec fn widened_node(dag: Seq<NodeView>, id: usize) -> Built {
    let node = dag[id as int];
    if node.op is Cast {
        let through = put(dag, cast_node(node.srcs[0], DType::Float32));
        put(through.dag, cast_node(through.id, node.dtype))
    } else {
        let (wide, list) = wide_sources(dag, node.srcs, node.srcs.len());
        if node.dtype == DType::FP8E4M3 {
            let inner = put(wide, NodeView { op: node.op, dtype: DType::Float32, srcs: list });
            put(inner.dag, cast_node(inner.id, DType::FP8E4M3))
        } else {
            put(wide, NodeView { op: node.op, dtype: node.dtype, srcs: list })
        }
    }
}

fn needs_widening(graph: &Graph, id: usize) -> (r: bool)
    requires
        graph.wf(),
        id < graph@.len(),
    ensures
        r == widens(graph@, id),
{
    assert(arity_ok(graph@[id as int].op, graph@[id as int].srcs.len()));
    let dtype = graph.dtype(id);
    match graph.op(id) {
        Op::Unary(_) | Op::Ternary(_) => dtype == DType::FP8E4M3,
        Op::Binary(_) => {
            let left = graph.dtype(graph.source(id, 0));
            let right = graph.dtype(graph.source(id, 1));
            dtype == DType::FP8E4M3 || (dtype == DType::Bool && (left == DType::FP8E4M3 || right
                == DType::FP8E4M3))
        },
        Op::Cast => {
            let from = graph.dtype(graph.source(id, 0));
            (dtype == DType::FP8E4M3 && from != DType::Float32) || (from == DType::FP8E4M3 && dtype
                != DType::Float32)
        },
        _ => false,
    }
}

/// Computes a node in 32 bits if it computes with eight-bit floats. Storage and
/// matrix products take eight-bit floats as they are and are left alone.
pub fn widen_fp8(graph: &mut Graph, id: usize) -> (result: Option<usize>)
    requires
        old(graph).wf(),
        id < old(graph)@.len(),
    ensures
        final(graph).wf(),
        match result {
            Some(new) => widens(old(graph)@, id) && final(graph)@ == widened_node(
                old(graph)@,
                id,
            ).dag && new == widened_node(old(graph)@, id).id && new < final(graph)@.len(),
            None => !widens(old(graph)@, id) && final(graph)@ == old(graph)@,
        },
{
    if !needs_widening(graph, id) {
        return None;
    }
    let ghost dag = graph@;
    let ghost node = dag[id as int];
    assert(arity_ok(node.op, node.srcs.len()));
    let op = graph.op(id);
    let dtype = graph.dtype(id);
    match op {
        Op::Cast => {
            let src: usize = graph.source(id, 0);
            let through: usize = graph.cast(src, DType::Float32);
            Some(graph.cast(through, dtype))
        },
        _ => {
            let count: usize = graph.source_count(id);
            let mut list: Vec<usize> = Vec::new();
            let mut k: usize = 0;
            while k < count
                invariant
                    graph.wf(),
                    id < dag.len() <= graph@.len(),
                    node == dag[id as int],
                    graph@[id as int] == node,
                    dag_wf(dag),
                    count == node.srcs.len(),
                    k <= count,
                    graph@ == wide_sources(dag, node.srcs, k as nat).0,
                    list@ == wide_sources(dag, node.srcs, k as nat).1,
                    list@.len() == k,
                    forall|i: int| 0 <= i < list@.len() ==> (#[trigger] list@[i]) < graph@.len(),
                decreases count - k,
            {
                let src: usize = graph.source(id, k);
                let ghost before = graph@;
                let wide: usize = if graph.dtype(src) == DType::FP8E4M3 {
                    let cast: usize = graph.cast(src, DType::Float32);
                    proof {
                        lemma_interned_keeps(before, cast_node(src, DType::Float32));
                    }
                    cast
                } else {
                    src
                };
                list.push(wide);
                k += 1;
            }
            if dtype == DType::FP8E4M3 {
                let inner: usize = graph.node(op, DType::Float32, list.as_slice());
                Some(graph.cast(inner, DType::FP8E4M3))
            } else {
                Some(graph.node(op, dtype, list.as_slice()))
            }
        },
    }
}

/// The sample node of each kind, over the constants one and two.
pub open spec fn sample(dag: Seq<NodeView>, op: Fp8Op) -> Built {
    let left = put(dag, fp8_const(ONE));
    let right = put(left.dag, fp8_const(TWO));
    let fp8 = DType::FP8E4M3;
    match op {
        Fp8Op::Unary => put(
            right.dag,
            NodeView { op: Op::Unary(UnaryOp::Neg), dtype: fp8, srcs: seq![left.id] },
        ),
        Fp8Op::Binary => put(
            right.dag,
            NodeView { op: Op::Binary(BinaryOp::Add), dtype: fp8, srcs: seq![left.id, right.id] },
        ),
        Fp8Op::Compare => put(
            right.dag,
            NodeView {
                op: Op::Binary(BinaryOp::Lt),
                dtype: DType::Bool,
                srcs: seq![left.id, right.id],
            },
        ),
        Fp8Op::Where => {
            let yes = put(right.dag, const_node(ConstValue::Bool(true), DType::Bool));
            put(
                yes.dag,
                NodeView {
                    op: Op::Ternary(TernaryOp::Where),
                    dtype: fp8,
                    srcs: seq![yes.id, left.id, right.id],
                },
            )
        },
        Fp8Op::MulAccLike => put(
            right.dag,
            NodeView {
                op: Op::Ternary(TernaryOp::MulAcc),
                dtype: fp8,
                srcs: seq![left.id, right.id, left.id],
            },
        ),
        Fp8Op::CastTo => {
            let one = put(right.dag, const_node(ConstValue::Int(1), DType::Int32));
            put(one.dag, cast_node(one.id, fp8))
        },
        Fp8Op::CastFrom => put(right.dag, cast_node(left.id, DType::Int32)),
    }
}

/// The sample node of one kind.
pub fn fp8_node(graph: &mut Graph, op: Fp8Op) -> (id: usize)
    requires
        old(graph).wf(),
    ensures
        final(graph).wf(),
        final(graph)@ == sample(old(graph)@, op).dag,
        id == sample(old(graph)@, op).id,
        id < final(graph)@.len(),
{
    let fp8 = DType::FP8E4M3;
    let left: usize = graph.constant(ConstValue::Float(ONE), fp8);
    let right: usize = graph.constant(ConstValue::Float(TWO), fp8);
    match op {
        Fp8Op::Unary => graph.unary(Op::Unary(UnaryOp::Neg), fp8, left),
        Fp8Op::Binary => graph.binary(Op::Binary(BinaryOp::Add), fp8, left, right),
        Fp8Op::Compare => graph.binary(Op::Binary(BinaryOp::Lt), DType::Bool, left, right),
        Fp8Op::Where => {
            let yes: usize = graph.constant(ConstValue::Bool(true), DType::Bool);
            graph.ternary(Op::Ternary(TernaryOp::Where), fp8, yes, left, right)
        },
        Fp8Op::MulAccLike => graph.ternary(
            Op::Ternary(TernaryOp::MulAcc),
            fp8,
            left,
            right,
            left,
        ),
        Fp8Op::CastTo => {
            let one: usize = graph.constant(ConstValue::Int(1), DType::Int32);
            graph.cast(one, fp8)
        },
        Fp8Op::CastFrom => graph.cast(left, DType::Int32),
    }
}

} // verus!
