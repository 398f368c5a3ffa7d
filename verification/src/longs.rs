//! Graphs without 64-bit integers: each becomes two words of 32 bits, and so
//! does its storage.

use vstd::prelude::*;

use crate::builders::{cast_node, const_node, lemma_interned_keeps};
use crate::fold::{number_of, word_count};
use crate::graph::{arity_ok, dag_wf, BinaryOp, ConstValue, DType, Graph, NodeView, Op, TernaryOp};
use crate::halves::{
    amount, both, computes, keeps_amounts, lemma_keeps, put_cast, put_choice, put_number, put_op,
    Halves,
};
use crate::meaning::lemma_arity;
use crate::passes::{extends, with_srcs};
use crate::quotients::{lemma_kept, put_binary, put_constant, put_pick, splits_long};
use crate::short::{is_long, is_short, lemma_short_node, lemma_short_type};
use crate::topo::{
    lemma_push_contains, lemma_reaches_below, lemma_reaches_transitive, lemma_topo, reaches, topo,
};
use crate::words::half_count;

verus! {

/// The types whose numbers fit in a word.
pub open spec fn is_narrow(dtype: DType) -> bool {
    dtype == DType::Bool || dtype == DType::Int32 || dtype == DType::UInt32
}

/// The type of the words that a split type is stored in.
pub open spec fn word_type(dtype: DType) -> DType {
    if dtype == DType::Int64 {
        DType::Int32
    } else {
        DType::UInt32
    }
}

/// What a node becomes.
#[derive(Clone, Copy, Debug, PartialEq, Eq, Structural)]
pub enum Kind {
    /// One node.
    Whole,
    /// The two words of a number.
    Words,
    /// Nothing of its own: the address of a number, whose words have their own.
    Address,
    /// It cannot be split.
    Stuck,
}

/// What a node becomes, given what the ones before it do.
pub open spec fn kind_from(dag: Seq<NodeView>, id: usize, of: spec_fn(usize) -> Kind) -> Kind {
    let node = dag[id as int];
    let count = node.srcs.len();
    if is_long(node.dtype) {
        match node.op {
            Op::Const(value) => if number_of(value) is Some {
                Kind::Words
            } else {
                Kind::Stuck
            },
            Op::Binary(op) => if splits_long(op) && of(node.srcs[0]) == Kind::Words && of(
                node.srcs[1],
            ) == Kind::Words {
                Kind::Words
            } else {
                Kind::Stuck
            },
            Op::Ternary(TernaryOp::Where) => if of(node.srcs[0]) == Kind::Whole && of(node.srcs[1])
                == Kind::Words && of(node.srcs[2]) == Kind::Words {
                Kind::Words
            } else {
                Kind::Stuck
            },
            Op::Cast => if is_narrow(dag[node.srcs[0] as int].dtype) && of(node.srcs[0])
                == Kind::Whole {
                Kind::Words
            } else if of(node.srcs[0]) == Kind::Words {
                Kind::Words
            } else {
                Kind::Stuck
            },
            Op::Load => if of(node.srcs[0]) == Kind::Address && (count == 1 || of(node.srcs[1])
                == Kind::Words && of(node.srcs[2]) == Kind::Whole) {
                Kind::Words
            } else {
                Kind::Stuck
            },
            Op::Index => if count == 2 && of(node.srcs[0]) == Kind::Whole && of(node.srcs[1])
                == Kind::Whole {
                Kind::Address
            } else {
                Kind::Stuck
            },
            Op::Param { .. } => if count == 0 {
                Kind::Whole
            } else {
                Kind::Stuck
            },
            Op::Buffer { size, .. } => if count == 0 && size <= usize::MAX / 2 {
                Kind::Whole
            } else {
                Kind::Stuck
            },
            _ => Kind::Stuck,
        }
    } else if node.op is Store && of(node.srcs[1]) == Kind::Words {
        if of(node.srcs[0]) == Kind::Address && (count == 2 || of(node.srcs[2]) == Kind::Whole) {
            Kind::Whole
        } else {
            Kind::Stuck
        }
    } else if node.op is Cast && of(node.srcs[0]) == Kind::Words {
        if node.dtype == DType::Int32 || node.dtype == DType::UInt32 {
            Kind::Whole
        } else {
            Kind::Stuck
        }
    } else if forall|k: int| 0 <= k < count ==> of(#[trigger] node.srcs[k]) == Kind::Whole {
        Kind::Whole
    } else {
        Kind::Stuck
    }
}

/// What a node becomes.
pub open spec fn kind(dag: Seq<NodeView>, id: usize) -> Kind
    decreases id,
{
    kind_from(
        dag,
        id,
        |src: usize|
            if src < id {
                kind(dag, src)
            } else {
                Kind::Stuck
            },
    )
}

/// Whether everything at and below a root can be split, and the root is one
/// node afterwards.
pub open spec fn can_split(dag: Seq<NodeView>, root: usize) -> bool {
    &&& kind(dag, root) == Kind::Whole
    &&& forall|x: usize| #[trigger] reaches(dag, root, x) ==> kind(dag, x) != Kind::Stuck
}

proof fn lemma_kind(dag: Seq<NodeView>, id: usize)
    requires
        dag_wf(dag),
        id < dag.len(),
    ensures
        kind(dag, id) == kind_from(dag, id, |src: usize| kind(dag, src)),
{
    let node = dag[id as int];
    lemma_arity(dag, id);
    let f = |src: usize|
        if src < id {
            kind(dag, src)
        } else {
            Kind::Stuck
        };
    let g = |src: usize| kind(dag, src);
    assert forall|k: int| 0 <= k < node.srcs.len() implies f(#[trigger] node.srcs[k]) == g(
        node.srcs[k],
    ) by {
        assert(dag[id as int].srcs[k] < id);
    }
    if node.srcs.len() > 0 {
        assert(f(node.srcs[0]) == g(node.srcs[0]));
    }
    if node.srcs.len() > 1 {
        assert(f(node.srcs[1]) == g(node.srcs[1]));
    }
    if node.srcs.len() > 2 {
        assert(f(node.srcs[2]) == g(node.srcs[2]));
    }
    assert((forall|k: int| 0 <= k < node.srcs.len() ==> f(#[trigger] node.srcs[k]) == Kind::Whole)
        <==> (forall|k: int|
        0 <= k < node.srcs.len() ==> g(#[trigger] node.srcs[k]) == Kind::Whole)) by {
        if forall|k: int| 0 <= k < node.srcs.len() ==> g(#[trigger] node.srcs[k]) == Kind::Whole {
            assert forall|k: int| 0 <= k < node.srcs.len() implies f(#[trigger] node.srcs[k])
                == Kind::Whole by {
                assert(g(node.srcs[k]) == Kind::Whole);
            }
        }
        if forall|k: int| 0 <= k < node.srcs.len() ==> f(#[trigger] node.srcs[k]) == Kind::Whole {
            assert forall|k: int| 0 <= k < node.srcs.len() implies g(#[trigger] node.srcs[k])
                == Kind::Whole by {
                assert(f(node.srcs[k]) == Kind::Whole);
            }
        }
    }
}

fn long_type(dtype: DType) -> (r: bool)
    ensures
        r == is_long(dtype),
{
    match dtype {
        DType::Int64 | DType::UInt64 => true,
        _ => false,
    }
}

fn splitting(op: BinaryOp) -> (r: bool)
    ensures
        r == splits_long(op),
{
    match op {
        BinaryOp::Add
        | BinaryOp::Sub
        | BinaryOp::Mul
        | BinaryOp::And
        | BinaryOp::Or
        | BinaryOp::Xor
        | BinaryOp::CDiv
        | BinaryOp::CMod
        | BinaryOp::Shl => true,
        _ => false,
    }
}

fn all_whole(graph: &Graph, id: usize, kinds: &Vec<Kind>) -> (r: bool)
    requires
        graph.wf(),
        id < graph@.len(),
        kinds@.len() == id,
        forall|x: usize| x < id ==> #[trigger] kinds@[x as int] == kind(graph@, x),
    ensures
        r == (forall|k: int|
            0 <= k < graph@[id as int].srcs.len() ==> kind(
                graph@,
                #[trigger] graph@[id as int].srcs[k],
            ) == Kind::Whole),
{
    let count: usize = graph.source_count(id);
    let mut k: usize = 0;
    while k < count
        invariant
            graph.wf(),
            id < graph@.len(),
            kinds@.len() == id,
            forall|x: usize| x < id ==> #[trigger] kinds@[x as int] == kind(graph@, x),
            count == graph@[id as int].srcs.len(),
            k <= count,
            forall|j: int|
                0 <= j < k ==> kind(graph@, #[trigger] graph@[id as int].srcs[j]) == Kind::Whole,
        decreases count - k,
    {
        let src: usize = graph.source(id, k);
        assert(kinds@[src as int] == kind(graph@, src));
        if kinds[src] != Kind::Whole {
            assert(kind(graph@, graph@[id as int].srcs[k as int]) != Kind::Whole);
            return false;
        }
        k += 1;
    }
    true
}

#[verifier::rlimit(40)]
#[verifier::spinoff_prover]
fn next_kind(graph: &Graph, id: usize, kinds: &Vec<Kind>) -> (next: Kind)
    requires
        graph.wf(),
        id < graph@.len(),
        kinds@.len() == id,
        forall|x: usize| x < id ==> #[trigger] kinds@[x as int] == kind(graph@, x),
    ensures
        next == kind(graph@, id),
{
    let ghost dag = graph@;
    proof {
        lemma_arity(dag, id);
        lemma_kind(dag, id);
    }
    let count: usize = graph.source_count(id);
    let first: Kind = if count > 0 {
        kinds[graph.source(id, 0)]
    } else {
        Kind::Stuck
    };
    let second: Kind = if count > 1 {
        kinds[graph.source(id, 1)]
    } else {
        Kind::Stuck
    };
    let third: Kind = if count > 2 {
        kinds[graph.source(id, 2)]
    } else {
        Kind::Stuck
    };
    let op = graph.op(id);
    let dtype = graph.dtype(id);
    let words: bool = if long_type(dtype) {
        match op {
            Op::Const(value) => match value {
                ConstValue::Int(_) | ConstValue::UInt(_) | ConstValue::Bool(_) => true,
                _ => false,
            },
            Op::Binary(own) => splitting(own) && first == Kind::Words && second == Kind::Words,
            Op::Ternary(TernaryOp::Where) => first == Kind::Whole && second == Kind::Words && third
                == Kind::Words,
            Op::Cast => {
                let narrow: bool = match graph.dtype(graph.source(id, 0)) {
                    DType::Bool | DType::Int32 | DType::UInt32 => true,
                    _ => false,
                };
                (narrow && first == Kind::Whole) || first == Kind::Words
            },
            Op::Load => first == Kind::Address && (count == 1 || second == Kind::Words && third
                == Kind::Whole),
            Op::Index => {
                return if count == 2 && first == Kind::Whole && second == Kind::Whole {
                    Kind::Address
                } else {
                    Kind::Stuck
                };
            },
            Op::Param { .. } => {
                return if count == 0 {
                    Kind::Whole
                } else {
                    Kind::Stuck
                };
            },
            Op::Buffer { size, .. } => {
                return if count == 0 && size <= usize::MAX / 2 {
                    Kind::Whole
                } else {
                    Kind::Stuck
                };
            },
            _ => false,
        }
    } else {
        let stored: bool = match op {
            Op::Store => second == Kind::Words,
            _ => false,
        };
        let narrowed: bool = match op {
            Op::Cast => first == Kind::Words,
            _ => false,
        };
        let fine: bool = if stored {
            first == Kind::Address && (count == 2 || third == Kind::Whole)
        } else if narrowed {
            dtype == DType::Int32 || dtype == DType::UInt32
        } else {
            all_whole(graph, id, kinds)
        };
        return if fine {
            Kind::Whole
        } else {
            Kind::Stuck
        };
    };
    if words {
        Kind::Words
    } else {
        Kind::Stuck
    }
}

/// What each node up to a root becomes.
fn find_kinds(graph: &Graph, root: usize) -> (kinds: Vec<Kind>)
    requires
        graph.wf(),
        root < graph@.len(),
    ensures
        kinds@.len() == root + 1,
        forall|x: usize| x <= root ==> #[trigger] kinds@[x as int] == kind(graph@, x),
{
    let mut kinds: Vec<Kind> = Vec::new();
    let mut id: usize = 0;
    while id < root
        invariant
            graph.wf(),
            id <= root < graph@.len(),
            kinds@.len() == id,
            forall|x: usize| x < id ==> #[trigger] kinds@[x as int] == kind(graph@, x),
        decreases root - id,
    {
        let next = next_kind(graph, id, &kinds);
        kinds.push(next);
        id += 1;
    }
    let next = next_kind(graph, root, &kinds);
    kinds.push(next);
    kinds
}

/// What stands for a node.
#[derive(Clone, Copy, Debug, PartialEq, Eq, Structural)]
pub enum Part {
    Whole(usize),
    Words(Halves),
    Address,
}

/// The node that stands for a node.
pub open spec fn whole(part: Part) -> usize {
    match part {
        Part::Whole(id) => id,
        _ => 0,
    }
}

/// The words that stand for a node.
pub open spec fn words(part: Part) -> Halves {
    match part {
        Part::Words(h) => h,
        _ => Halves { low: 0, high: 0 },
    }
}

/// One of two words.
pub open spec fn half(h: Halves, high: bool) -> usize {
    if high {
        h.high
    } else {
        h.low
    }
}

/// Whether what stands for a node is of its kind, and stands in a graph,
/// computed without 64-bit integers.
pub open spec fn is_kind(more: Seq<NodeView>, part: Part, kind: Kind) -> bool {
    match (kind, part) {
        (Kind::Whole, Part::Whole(id)) => id < more.len() && is_short(more, id),
        (Kind::Words, Part::Words(h)) => h.stands(more),
        (Kind::Address, Part::Address) => true,
        _ => false,
    }
}

/// Whether a node is twice another one.
pub open spec fn is_twice(more: Seq<NodeView>, i: usize, id: usize) -> bool {
    let node = more[id as int];
    &&& node.op == Op::Binary(BinaryOp::Mul)
    &&& node.dtype == more[i as int].dtype
    &&& node.srcs.len() == 2
    &&& node.srcs[0] == i
    &&& more[node.srcs[1] as int] == const_node(ConstValue::Int(2), more[i as int].dtype)
}

/// Whether a node is the index of a word of the number at an index: the words
/// of a number stand side by side, the lower one first.
pub open spec fn is_word_index(more: Seq<NodeView>, i: usize, high: bool, id: usize) -> bool {
    if high {
        let node = more[id as int];
        &&& node.op == Op::Binary(BinaryOp::Add)
        &&& node.dtype == more[i as int].dtype
        &&& node.srcs.len() == 2
        &&& is_twice(more, i, node.srcs[0])
        &&& more[node.srcs[1] as int] == const_node(ConstValue::Int(1), more[i as int].dtype)
    } else {
        is_twice(more, i, id)
    }
}

/// Whether a node is the address of a word of the number at an index.
pub open spec fn has_address(
    more: Seq<NodeView>,
    buffer: usize,
    i: usize,
    dtype: DType,
    high: bool,
    id: usize,
) -> bool {
    let node = more[id as int];
    &&& node.op is Index
    &&& node.dtype == dtype
    &&& node.srcs.len() == 2
    &&& node.srcs[0] == buffer
    &&& is_word_index(more, i, high, node.srcs[1])
}

/// Whether a node is the address of a word of the number at an address.
pub open spec fn is_word_address(
    dag: Seq<NodeView>,
    more: Seq<NodeView>,
    parts: Seq<Part>,
    address: usize,
    high: bool,
    id: usize,
) -> bool {
    let from = dag[address as int];
    has_address(
        more,
        whole(parts[from.srcs[0] as int]),
        whole(parts[from.srcs[1] as int]),
        word_type(from.dtype),
        high,
        id,
    )
}

/// Whether a node is a word as it is stored: with a sign where the number has
/// one.
pub open spec fn is_stored(more: Seq<NodeView>, dtype: DType, word: usize, id: usize) -> bool {
    if dtype == DType::Int64 {
        more[id as int] == cast_node(word, DType::Int32)
    } else {
        id == word
    }
}

/// Whether a node reads a word of the number that a node reads.
pub open spec fn is_word_load(
    dag: Seq<NodeView>,
    more: Seq<NodeView>,
    parts: Seq<Part>,
    u: usize,
    high: bool,
    id: usize,
) -> bool {
    let from = dag[u as int];
    let node = more[id as int];
    &&& node.op is Load
    &&& node.dtype == word_type(from.dtype)
    &&& node.srcs.len() == from.srcs.len()
    &&& is_word_address(dag, more, parts, from.srcs[0], high, node.srcs[0])
    &&& from.srcs.len() == 3 ==> {
        &&& is_stored(
            more,
            from.dtype,
            half(words(parts[from.srcs[1] as int]), high),
            node.srcs[1],
        )
        &&& node.srcs[2] == whole(parts[from.srcs[2] as int])
    }
}

/// Whether a word is the one that is read, without a sign.
pub open spec fn is_loaded(
    dag: Seq<NodeView>,
    more: Seq<NodeView>,
    parts: Seq<Part>,
    u: usize,
    high: bool,
    id: usize,
) -> bool {
    if dag[u as int].dtype == DType::Int64 {
        let node = more[id as int];
        &&& node.op is Cast
        &&& node.dtype == DType::UInt32
        &&& node.srcs.len() == 1
        &&& is_word_load(dag, more, parts, u, high, node.srcs[0])
    } else {
        is_word_load(dag, more, parts, u, high, id)
    }
}

/// Whether a node writes a word of the number that a node writes.
pub open spec fn is_word_store(
    dag: Seq<NodeView>,
    more: Seq<NodeView>,
    parts: Seq<Part>,
    u: usize,
    high: bool,
    id: usize,
) -> bool {
    let from = dag[u as int];
    let node = more[id as int];
    let value = from.srcs[1];
    &&& node.op is Store
    &&& node.dtype == from.dtype
    &&& node.srcs.len() == from.srcs.len()
    &&& is_word_address(dag, more, parts, from.srcs[0], high, node.srcs[0])
    &&& is_stored(
        more,
        dag[value as int].dtype,
        half(words(parts[value as int]), high),
        node.srcs[1],
    )
    &&& from.srcs.len() == 3 ==> node.srcs[2] == whole(parts[from.srcs[2] as int])
}

/// Whether the words of a node are right, where those of its sources are: they
/// are the words of the number that the node has at full width.
pub open spec fn words_ok(
    dag: Seq<NodeView>,
    more: Seq<NodeView>,
    parts: Seq<Part>,
    u: usize,
    h: Halves,
) -> bool {
    let node = dag[u as int];
    match node.op {
        Op::Const(value) => forall|at: spec_fn(usize) -> int| #[trigger]
            both(more, h, at) == Some(number_of(value)->0 % word_count()),
        Op::Binary(op) => computes(
            more,
            more,
            op,
            node.dtype,
            words(parts[node.srcs[0] as int]),
            words(parts[node.srcs[1] as int]),
            h,
        ),
        Op::Ternary(TernaryOp::Where) => forall|at: spec_fn(usize) -> int|
            #![trigger both(more, h, at)]
            amount(more, whole(parts[node.srcs[0] as int]), at) matches Some(c) ==> both(
                more,
                h,
                at,
            ) == (if c != 0 {
                both(more, words(parts[node.srcs[1] as int]), at)
            } else {
                both(more, words(parts[node.srcs[2] as int]), at)
            }),
        Op::Cast => if kind(dag, node.srcs[0]) == Kind::Words {
            h == words(parts[node.srcs[0] as int])
        } else {
            forall|at: spec_fn(usize) -> int|
                #![trigger both(more, h, at)]
                match amount(more, whole(parts[node.srcs[0] as int]), at) {
                    Some(n) => -0x8000_0000 <= n < half_count() ==> both(more, h, at) == Some(
                        n % word_count(),
                    ),
                    None => true,
                }
        },
        _ => is_loaded(dag, more, parts, u, false, h.low) && is_loaded(
            dag,
            more,
            parts,
            u,
            true,
            h.high,
        ),
    }
}

/// Whether the node that stands for another is right: storage holds words, a
/// store of a number is a store of each of its words, a conversion takes the
/// lower word, and everything else is the same over what stands for its
/// sources.
pub open spec fn whole_ok(
    dag: Seq<NodeView>,
    more: Seq<NodeView>,
    parts: Seq<Part>,
    u: usize,
    id: usize,
) -> bool {
    let node = dag[u as int];
    if is_long(node.dtype) {
        more[id as int] == NodeView {
            op: match node.op {
                Op::Buffer { slot, space, size } => Op::Buffer {
                    slot,
                    space,
                    size: (2 * size) as usize,
                },
                op => op,
            },
            dtype: word_type(node.dtype),
            srcs: node.srcs,
        }
    } else if node.op is Store && kind(dag, node.srcs[1]) == Kind::Words {
        let group = more[id as int];
        &&& group.op is Group
        &&& group.dtype == DType::Void
        &&& group.srcs.len() == 2
        &&& is_word_store(dag, more, parts, u, false, group.srcs[0])
        &&& is_word_store(dag, more, parts, u, true, group.srcs[1])
    } else if node.op is Cast && kind(dag, node.srcs[0]) == Kind::Words {
        more[id as int] == cast_node(words(parts[node.srcs[0] as int]).low, node.dtype)
    } else {
        more[id as int] == with_srcs(
            node,
            Seq::new(node.srcs.len(), |k: int| whole(parts[node.srcs[k] as int])),
        )
    }
}

/// Whether what stands for a node is right.
pub open spec fn part_ok(
    dag: Seq<NodeView>,
    more: Seq<NodeView>,
    parts: Seq<Part>,
    u: usize,
) -> bool {
    &&& is_kind(more, parts[u as int], kind(dag, u))
    &&& match parts[u as int] {
        Part::Whole(id) => whole_ok(dag, more, parts, u, id),
        Part::Words(h) => words_ok(dag, more, parts, u, h),
        Part::Address => true,
    }
}

/// Whether everything at and below a root is split, and the root has become a
/// node: what stands for each node is right.
pub open spec fn is_split(
    dag: Seq<NodeView>,
    root: usize,
    more: Seq<NodeView>,
    parts: Seq<Part>,
    new: usize,
) -> bool {
    &&& parts.len() == root + 1
    &&& parts[root as int] == Part::Whole(new)
    &&& forall|x: usize| #[trigger] reaches(dag, root, x) ==> part_ok(dag, more, parts, x)
}

/// The sources of a node have what stands for them.
spec fn have_parts(dag: Seq<NodeView>, more: Seq<NodeView>, parts: Seq<Part>, u: usize) -> bool {
    &&& forall|k: int|
        0 <= k < dag[u as int].srcs.len() ==> {
            let src = #[trigger] dag[u as int].srcs[k];
            &&& src < parts.len()
            &&& is_kind(more, parts[src as int], kind(dag, src))
        }
    &&& forall|k: int, j: int|
        #![trigger dag[dag[u as int].srcs[k] as int].srcs[j]]
        0 <= k < dag[u as int].srcs.len() && 0 <= j < dag[dag[u as int].srcs[k] as int].srcs.len()
            && kind(dag, dag[u as int].srcs[k]) == Kind::Address ==> {
            let src = dag[dag[u as int].srcs[k] as int].srcs[j];
            &&& src < parts.len()
            &&& is_kind(more, parts[src as int], kind(dag, src))
        }
}

proof fn lemma_twice_kept(more: Seq<NodeView>, next: Seq<NodeView>, i: usize, id: usize)
    requires
        dag_wf(more),
        extends(more, next),
        i < more.len(),
        id < more.len(),
        is_twice(more, i, id),
    ensures
        is_twice(next, i, id),
{
    assert(next[id as int] == more[id as int]);
    assert(next[i as int] == more[i as int]);
    assert(more[id as int].srcs[1] < id);
}

proof fn lemma_index_kept(more: Seq<NodeView>, next: Seq<NodeView>, i: usize, high: bool, id: usize)
    requires
        dag_wf(more),
        extends(more, next),
        i < more.len(),
        id < more.len(),
        is_word_index(more, i, high, id),
    ensures
        is_word_index(next, i, high, id),
{
    assert(next[id as int] == more[id as int]);
    assert(next[i as int] == more[i as int]);
    if high {
        assert(more[id as int].srcs[0] < id);
        assert(more[id as int].srcs[1] < id);
        lemma_twice_kept(more, next, i, more[id as int].srcs[0]);
    } else {
        lemma_twice_kept(more, next, i, id);
    }
}

proof fn lemma_address_kept(
    dag: Seq<NodeView>,
    more: Seq<NodeView>,
    next: Seq<NodeView>,
    parts: Seq<Part>,
    address: usize,
    high: bool,
    id: usize,
)
    requires
        dag_wf(more),
        extends(more, next),
        id < more.len(),
        whole(parts[dag[address as int].srcs[1] as int]) < more.len(),
        is_word_address(dag, more, parts, address, high, id),
    ensures
        is_word_address(dag, next, parts, address, high, id),
{
    assert(next[id as int] == more[id as int]);
    assert(more[id as int].srcs[1] < id);
    lemma_index_kept(
        more,
        next,
        whole(parts[dag[address as int].srcs[1] as int]),
        high,
        more[id as int].srcs[1],
    );
}

/// The part of an address's index stands in the graph.
proof fn lemma_index_part(
    dag: Seq<NodeView>,
    more: Seq<NodeView>,
    parts: Seq<Part>,
    u: usize,
    address: usize,
)
    requires
        dag_wf(dag),
        u < dag.len(),
        dag[u as int].srcs.len() > 0,
        address == dag[u as int].srcs[0],
        kind(dag, address) == Kind::Address,
        have_parts(dag, more, parts, u),
    ensures
        address < u,
        dag[address as int].op is Index,
        dag[address as int].srcs.len() == 2,
        is_long(dag[address as int].dtype),
        is_kind(more, parts[dag[address as int].srcs[0] as int], Kind::Whole),
        is_kind(more, parts[dag[address as int].srcs[1] as int], Kind::Whole),
{
    assert(dag[u as int].srcs[0] < u);
    lemma_kind(dag, address);
    let inner = dag[address as int];
    assert(inner.srcs.len() == 2);
    assert(dag[dag[u as int].srcs[0] as int].srcs[0] == inner.srcs[0]);
    assert(dag[dag[u as int].srcs[0] as int].srcs[1] == inner.srcs[1]);
}

proof fn lemma_load_kept(
    dag: Seq<NodeView>,
    more: Seq<NodeView>,
    next: Seq<NodeView>,
    parts: Seq<Part>,
    u: usize,
    high: bool,
    id: usize,
)
    requires
        dag_wf(dag),
        dag_wf(more),
        extends(more, next),
        u < dag.len(),
        id < more.len(),
        dag[u as int].srcs.len() > 0,
        kind(dag, dag[u as int].srcs[0]) == Kind::Address,
        have_parts(dag, more, parts, u),
        is_word_load(dag, more, parts, u, high, id),
    ensures
        is_word_load(dag, next, parts, u, high, id),
{
    let address = dag[u as int].srcs[0];
    assert(next[id as int] == more[id as int]);
    lemma_index_part(dag, more, parts, u, address);
    assert(more[id as int].srcs[0] < id);
    lemma_address_kept(dag, more, next, parts, address, high, more[id as int].srcs[0]);
    if dag[u as int].srcs.len() == 3 {
        assert(more[id as int].srcs[1] < id);
        let alt = more[id as int].srcs[1];
        assert(next[alt as int] == more[alt as int]);
    }
}

proof fn lemma_store_kept(
    dag: Seq<NodeView>,
    more: Seq<NodeView>,
    next: Seq<NodeView>,
    parts: Seq<Part>,
    u: usize,
    high: bool,
    id: usize,
)
    requires
        dag_wf(dag),
        dag_wf(more),
        extends(more, next),
        u < dag.len(),
        id < more.len(),
        dag[u as int].srcs.len() > 1,
        kind(dag, dag[u as int].srcs[0]) == Kind::Address,
        have_parts(dag, more, parts, u),
        is_word_store(dag, more, parts, u, high, id),
    ensures
        is_word_store(dag, next, parts, u, high, id),
{
    let address = dag[u as int].srcs[0];
    assert(next[id as int] == more[id as int]);
    lemma_index_part(dag, more, parts, u, address);
    assert(more[id as int].srcs[0] < id);
    lemma_address_kept(dag, more, next, parts, address, high, more[id as int].srcs[0]);
    assert(more[id as int].srcs[1] < id);
    let value = more[id as int].srcs[1];
    assert(next[value as int] == more[value as int]);
}

/// What stands for a node stays right while the graph grows.
#[verifier::rlimit(60)]
#[verifier::spinoff_prover]
proof fn lemma_part_kept(
    dag: Seq<NodeView>,
    more: Seq<NodeView>,
    next: Seq<NodeView>,
    parts: Seq<Part>,
    u: usize,
)
    requires
        dag_wf(dag),
        dag_wf(more),
        keeps_amounts(more, next),
        u < dag.len(),
        have_parts(dag, more, parts, u),
        part_ok(dag, more, parts, u),
        kind(dag, u) != Kind::Stuck,
    ensures
        part_ok(dag, next, parts, u),
{
    let node = dag[u as int];
    lemma_arity(dag, u);
    lemma_kind(dag, u);
    let count = node.srcs.len();
    match parts[u as int] {
        Part::Whole(id) => {
            assert(next[id as int] == more[id as int]);
            if !is_long(node.dtype) && node.op is Store && kind(dag, node.srcs[1]) == Kind::Words {
                assert(more[id as int].srcs[0] < id && more[id as int].srcs[1] < id);
                lemma_store_kept(dag, more, next, parts, u, false, more[id as int].srcs[0]);
                lemma_store_kept(dag, more, next, parts, u, true, more[id as int].srcs[1]);
            }
        },
        Part::Words(h) => {
            assert(next[h.low as int] == more[h.low as int]);
            assert(next[h.high as int] == more[h.high as int]);
            match node.op {
                Op::Const(value) => {
                    assert forall|at: spec_fn(usize) -> int| #[trigger]
                        both(next, h, at) == Some(number_of(value)->0 % word_count()) by {
                        lemma_kept(more, next, h, at);
                        assert(both(more, h, at) is Some);
                    }
                },
                Op::Binary(op) => {
                    assert(is_kind(more, parts[node.srcs[0] as int], kind(dag, node.srcs[0])));
                    assert(is_kind(more, parts[node.srcs[1] as int], kind(dag, node.srcs[1])));
                    let a = words(parts[node.srcs[0] as int]);
                    let b = words(parts[node.srcs[1] as int]);
                    lemma_computes_kept(more, next, op, node.dtype, a, b, h);
                },
                Op::Ternary(TernaryOp::Where) => {
                    assert(is_kind(more, parts[node.srcs[0] as int], kind(dag, node.srcs[0])));
                    assert(is_kind(more, parts[node.srcs[1] as int], kind(dag, node.srcs[1])));
                    assert(is_kind(more, parts[node.srcs[2] as int], kind(dag, node.srcs[2])));
                    let c = whole(parts[node.srcs[0] as int]);
                    let a = words(parts[node.srcs[1] as int]);
                    let b = words(parts[node.srcs[2] as int]);
                    assert forall|at: spec_fn(usize) -> int|
                        #![trigger both(next, h, at)]
                        amount(next, c, at) is Some implies both(next, h, at) == (if amount(
                        next,
                        c,
                        at,
                    )->0 != 0 {
                        both(next, a, at)
                    } else {
                        both(next, b, at)
                    }) by {
                        lemma_kept(more, next, h, at);
                        lemma_kept(more, next, a, at);
                        lemma_kept(more, next, b, at);
                        assert(amount(next, c, at) == amount(more, c, at));
                        assert(both(more, h, at) == both(more, h, at));
                    }
                },
                Op::Cast => {
                    assert(is_kind(more, parts[node.srcs[0] as int], kind(dag, node.srcs[0])));
                    if kind(dag, node.srcs[0]) != Kind::Words {
                        let c = whole(parts[node.srcs[0] as int]);
                        assert forall|at: spec_fn(usize) -> int|
                            #![trigger both(next, h, at)]
                            amount(next, c, at) is Some && -0x8000_0000 <= amount(next, c, at)->0
                                < half_count() implies both(next, h, at) == Some(
                            amount(next, c, at)->0 % word_count(),
                        ) by {
                            lemma_kept(more, next, h, at);
                            assert(amount(next, c, at) == amount(more, c, at));
                            assert(both(more, h, at) == both(more, h, at));
                        }
                    }
                },
                _ => {
                    assert(node.op is Load);
                    if node.dtype == DType::Int64 {
                        let (l, r) = (more[h.low as int].srcs[0], more[h.high as int].srcs[0]);
                        assert(l < h.low && r < h.high);
                        lemma_load_kept(dag, more, next, parts, u, false, l);
                        lemma_load_kept(dag, more, next, parts, u, true, r);
                    } else {
                        lemma_load_kept(dag, more, next, parts, u, false, h.low);
                        lemma_load_kept(dag, more, next, parts, u, true, h.high);
                    }
                },
            }
        },
        Part::Address => {},
    }
}

proof fn lemma_computes_kept(
    more: Seq<NodeView>,
    next: Seq<NodeView>,
    op: BinaryOp,
    dtype: DType,
    a: Halves,
    b: Halves,
    h: Halves,
)
    requires
        keeps_amounts(more, next),
        a.stands(more),
        b.stands(more),
        h.stands(more),
        computes(more, more, op, dtype, a, b, h),
    ensures
        computes(next, next, op, dtype, a, b, h),
{
    assert forall|at: spec_fn(usize) -> int| true implies both(next, a, at) == both(more, a, at)
        && both(next, b, at) == both(more, b, at) && #[trigger] both(next, h, at) == both(
        more,
        h,
        at,
    ) by {
        lemma_kept(more, next, a, at);
        lemma_kept(more, next, b, at);
        lemma_kept(more, next, h, at);
    }
}

/// A node over given sources.
fn put_node(graph: &mut Graph, op: Op, dtype: DType, srcs: &[usize]) -> (id: usize)
    requires
        old(graph).wf(),
        arity_ok(op, srcs@.len()),
        forall|k: int| 0 <= k < srcs@.len() ==> (#[trigger] srcs@[k]) < old(graph)@.len(),
        forall|k: int| 0 <= k < srcs@.len() ==> is_short(old(graph)@, #[trigger] srcs@[k]),
        !is_long(dtype),
    ensures
        final(graph).wf(),
        keeps_amounts(old(graph)@, final(graph)@),
        id < final(graph)@.len(),
        is_short(final(graph)@, id),
        final(graph)@[id as int] == (NodeView { op, dtype, srcs: srcs@ }),
{
    let ghost dag = graph@;
    let id: usize = graph.node(op, dtype, srcs);
    proof {
        lemma_interned_keeps(dag, NodeView { op, dtype, srcs: srcs@ });
        lemma_keeps(dag, graph@);
        lemma_short_node(graph@, id);
    }
    id
}

/// The address of a word of the number at an index.
fn put_address(graph: &mut Graph, buffer: usize, i: usize, dtype: DType, high: bool) -> (id: usize)
    requires
        old(graph).wf(),
        buffer < old(graph)@.len(),
        i < old(graph)@.len(),
        is_short(old(graph)@, buffer),
        is_short(old(graph)@, i),
        !is_long(dtype),
    ensures
        final(graph).wf(),
        keeps_amounts(old(graph)@, final(graph)@),
        id < final(graph)@.len(),
        is_short(final(graph)@, id),
        has_address(final(graph)@, buffer, i, dtype, high, id),
{
    proof {
        lemma_short_type(graph@, i);
    }
    let kind = graph.dtype(i);
    let two: usize = put_node(graph, Op::Const(ConstValue::Int(2)), kind, &[]);
    let ghost g1 = graph@;
    let twice: usize = put_node(graph, Op::Binary(BinaryOp::Mul), kind, &[i, two]);
    let ghost g2 = graph@;
    assert(g1[two as int].srcs =~= Seq::<usize>::empty());
    assert(is_twice(g2, i, twice)) by {
        assert(g2[two as int] == g1[two as int]);
        assert(g2[twice as int].srcs =~= seq![i, two]);
    }
    let index: usize = if high {
        let one: usize = put_node(graph, Op::Const(ConstValue::Int(1)), kind, &[]);
        let ghost g3 = graph@;
        assert(g3[one as int].srcs =~= Seq::<usize>::empty());
        let sum: usize = put_node(graph, Op::Binary(BinaryOp::Add), kind, &[twice, one]);
        proof {
            lemma_twice_kept(g2, graph@, i, twice);
            assert(graph@[one as int] == g3[one as int]);
            assert(graph@[sum as int].srcs =~= seq![twice, one]);
        }
        sum
    } else {
        twice
    };
    let ghost g4 = graph@;
    assert(is_word_index(g4, i, high, index));
    let id: usize = put_node(graph, Op::Index, dtype, &[buffer, index]);
    proof {
        lemma_index_kept(g4, graph@, i, high, index);
        assert(graph@[id as int].srcs =~= seq![buffer, index]);
    }
    id
}

/// A word as it is stored.
fn put_stored(graph: &mut Graph, dtype: DType, word: usize) -> (id: usize)
    requires
        old(graph).wf(),
        word < old(graph)@.len(),
        is_short(old(graph)@, word),
    ensures
        final(graph).wf(),
        keeps_amounts(old(graph)@, final(graph)@),
        id < final(graph)@.len(),
        is_short(final(graph)@, id),
        is_stored(final(graph)@, dtype, word, id),
{
    match dtype {
        DType::Int64 => {
            let id: usize = put_node(graph, Op::Cast, DType::Int32, &[word]);
            assert(graph@[id as int].srcs =~= seq![word]);
            id
        },
        _ => {
            proof {
                lemma_keeps(graph@, graph@);
            }
            word
        },
    }
}

fn stored_type(dtype: DType) -> (word: DType)
    ensures
        word == word_type(dtype),
{
    match dtype {
        DType::Int64 => DType::Int32,
        _ => DType::UInt32,
    }
}

fn take_whole(parts: &Vec<Part>, id: usize) -> (w: usize)
    requires
        id < parts@.len(),
    ensures
        w == whole(parts@[id as int]),
{
    match parts[id] {
        Part::Whole(w) => w,
        _ => 0,
    }
}

fn take_words(parts: &Vec<Part>, id: usize) -> (h: Halves)
    requires
        id < parts@.len(),
    ensures
        h == words(parts@[id as int]),
{
    match parts[id] {
        Part::Words(h) => h,
        _ => Halves { low: 0, high: 0 },
    }
}

/// What a step needs to know: a graph that has grown from another, in which
/// the sources of a node have what stands for them.
spec fn is_ready(dag: Seq<NodeView>, more: Seq<NodeView>, parts: Seq<Part>, u: usize) -> bool {
    &&& dag_wf(dag)
    &&& extends(dag, more)
    &&& u < dag.len()
    &&& u < parts.len()
    &&& have_parts(dag, more, parts, u)
    &&& kind(dag, u) != Kind::Stuck
}

proof fn lemma_ready_source(
    dag: Seq<NodeView>,
    more: Seq<NodeView>,
    parts: Seq<Part>,
    u: usize,
    part: Part,
    k: int,
)
    requires
        is_ready(dag, more, parts, u),
        0 <= k < dag[u as int].srcs.len(),
    ensures
        dag[u as int].srcs[k] < u,
        parts.update(u as int, part)[dag[u as int].srcs[k] as int] == parts[dag[u as int].srcs[k] as int],
        is_kind(more, parts[dag[u as int].srcs[k] as int], kind(dag, dag[u as int].srcs[k])),
{
    assert(dag[u as int].srcs[k] < u);
}

proof fn lemma_have_parts_kept(
    dag: Seq<NodeView>,
    more: Seq<NodeView>,
    next: Seq<NodeView>,
    parts: Seq<Part>,
    u: usize,
)
    requires
        keeps_amounts(more, next),
        have_parts(dag, more, parts, u),
    ensures
        have_parts(dag, next, parts, u),
{
    assert forall|part: Part, kind: Kind| is_kind(more, part, kind) implies #[trigger] is_kind(
        next,
        part,
        kind,
    ) by {
        match part {
            Part::Words(h) => {
                if kind == Kind::Words {
                    assert(next[h.low as int] == more[h.low as int]);
                    assert(next[h.high as int] == more[h.high as int]);
                }
            },
            _ => {},
        }
    }
}

/// A read of a word of a number, as it is stored.
#[verifier::rlimit(40)]
#[verifier::spinoff_prover]
fn put_plain_load(
    graph: &mut Graph,
    u: usize,
    parts: &Vec<Part>,
    high: bool,
    Ghost(dag): Ghost<Seq<NodeView>>,
) -> (id: usize)
    requires
        old(graph).wf(),
        is_ready(dag, old(graph)@, parts@, u),
        dag[u as int].op is Load,
        kind(dag, u) == Kind::Words,
    ensures
        final(graph).wf(),
        keeps_amounts(old(graph)@, final(graph)@),
        id < final(graph)@.len(),
        is_short(final(graph)@, id),
        is_word_load(dag, final(graph)@, parts@, u, high, id),
{
    let ghost start = graph@;
    let ghost node = dag[u as int];
    proof {
        assert(graph@[u as int] == node);
        lemma_arity(dag, u);
        lemma_kind(dag, u);
        lemma_ready_source(dag, start, parts@, u, Part::Address, 0);
        lemma_index_part(dag, start, parts@, u, node.srcs[0]);
    }
    let dtype = graph.dtype(u);
    let count: usize = graph.source_count(u);
    let address: usize = graph.source(u, 0);
    assert(graph@[address as int] == dag[address as int]);
    let word = stored_type(dtype);
    let home = stored_type(graph.dtype(address));
    let from: usize = graph.source(address, 0);
    let at: usize = graph.source(address, 1);
    proof {
        assert(dag[dag[u as int].srcs[0] as int].srcs[0] == from);
        assert(dag[dag[u as int].srcs[0] as int].srcs[1] == at);
    }
    let buffer: usize = take_whole(parts, from);
    let i: usize = take_whole(parts, at);
    let place: usize = put_address(graph, buffer, i, home, high);
    let ghost g1 = graph@;
    if count == 1 {
        let load: usize = put_node(graph, Op::Load, word, &[place]);
        proof {
            assert(graph@[load as int].srcs =~= seq![place]);
            lemma_has_address_kept(g1, graph@, buffer, i, home, high, place);
        }
        load
    } else {
        proof {
            lemma_ready_source(dag, start, parts@, u, Part::Address, 1);
            lemma_ready_source(dag, start, parts@, u, Part::Address, 2);
            assert(graph@[u as int] == node);
        }
        let alt = take_words(parts, graph.source(u, 1));
        let guard: usize = take_whole(parts, graph.source(u, 2));
        let own: usize = if high {
            alt.high
        } else {
            alt.low
        };
        let value: usize = put_stored(graph, dtype, own);
        let ghost g2 = graph@;
        let load: usize = put_node(graph, Op::Load, word, &[place, value, guard]);
        proof {
            assert(graph@[load as int].srcs =~= seq![place, value, guard]);
            lemma_has_address_kept(g1, graph@, buffer, i, home, high, place);
            assert(graph@[value as int] == g2[value as int]);
        }
        load
    }
}

/// A word of a number that is read, without a sign.
fn put_word_load(
    graph: &mut Graph,
    u: usize,
    parts: &Vec<Part>,
    high: bool,
    Ghost(dag): Ghost<Seq<NodeView>>,
) -> (id: usize)
    requires
        old(graph).wf(),
        is_ready(dag, old(graph)@, parts@, u),
        dag[u as int].op is Load,
        kind(dag, u) == Kind::Words,
    ensures
        final(graph).wf(),
        keeps_amounts(old(graph)@, final(graph)@),
        id < final(graph)@.len(),
        is_short(final(graph)@, id),
        final(graph)@[id as int].dtype == DType::UInt32,
        is_loaded(dag, final(graph)@, parts@, u, high, id),
{
    let ghost start = graph@;
    assert(graph@[u as int] == dag[u as int]);
    let dtype = graph.dtype(u);
    let load: usize = put_plain_load(graph, u, parts, high, Ghost(dag));
    let ghost mid = graph@;
    proof {
        lemma_arity(dag, u);
        lemma_kind(dag, u);
    }
    match dtype {
        DType::Int64 => {
            let id: usize = put_node(graph, Op::Cast, DType::UInt32, &[load]);
            proof {
                assert(graph@[id as int].srcs =~= seq![load]);
                lemma_have_parts_kept(dag, start, mid, parts@, u);
                lemma_load_kept(dag, mid, graph@, parts@, u, high, load);
            }
            id
        },
        _ => load,
    }
}

proof fn lemma_has_address_kept(
    more: Seq<NodeView>,
    next: Seq<NodeView>,
    buffer: usize,
    i: usize,
    dtype: DType,
    high: bool,
    id: usize,
)
    requires
        dag_wf(more),
        extends(more, next),
        i < more.len(),
        id < more.len(),
        has_address(more, buffer, i, dtype, high, id),
    ensures
        has_address(next, buffer, i, dtype, high, id),
{
    assert(next[id as int] == more[id as int]);
    assert(more[id as int].srcs[1] < id);
    lemma_index_kept(more, next, i, high, more[id as int].srcs[1]);
}

/// A write of a word of a number.
#[verifier::rlimit(40)]
#[verifier::spinoff_prover]
fn put_word_store(
    graph: &mut Graph,
    u: usize,
    parts: &Vec<Part>,
    high: bool,
    Ghost(dag): Ghost<Seq<NodeView>>,
) -> (id: usize)
    requires
        old(graph).wf(),
        is_ready(dag, old(graph)@, parts@, u),
        dag[u as int].op is Store,
        !is_long(dag[u as int].dtype),
        kind(dag, dag[u as int].srcs[1]) == Kind::Words,
    ensures
        final(graph).wf(),
        keeps_amounts(old(graph)@, final(graph)@),
        id < final(graph)@.len(),
        is_short(final(graph)@, id),
        is_word_store(dag, final(graph)@, parts@, u, high, id),
{
    let ghost start = graph@;
    let ghost node = dag[u as int];
    proof {
        assert(graph@[u as int] == node);
        lemma_arity(dag, u);
        lemma_kind(dag, u);
        lemma_ready_source(dag, start, parts@, u, Part::Address, 0);
        lemma_ready_source(dag, start, parts@, u, Part::Address, 1);
        lemma_index_part(dag, start, parts@, u, node.srcs[0]);
    }
    let dtype = graph.dtype(u);
    let count: usize = graph.source_count(u);
    let address: usize = graph.source(u, 0);
    assert(graph@[address as int] == dag[address as int]);
    let home = stored_type(graph.dtype(address));
    let from: usize = graph.source(address, 0);
    let at: usize = graph.source(address, 1);
    proof {
        assert(dag[dag[u as int].srcs[0] as int].srcs[0] == from);
        assert(dag[dag[u as int].srcs[0] as int].srcs[1] == at);
    }
    let buffer: usize = take_whole(parts, from);
    let i: usize = take_whole(parts, at);
    let value: usize = graph.source(u, 1);
    assert(graph@[value as int] == dag[value as int]);
    let kind = graph.dtype(value);
    let h = take_words(parts, value);
    let place: usize = put_address(graph, buffer, i, home, high);
    let ghost g1 = graph@;
    let own: usize = if high {
        h.high
    } else {
        h.low
    };
    let held: usize = put_stored(graph, kind, own);
    let ghost g2 = graph@;
    if count == 2 {
        let id: usize = put_node(graph, Op::Store, dtype, &[place, held]);
        proof {
            assert(graph@[id as int].srcs =~= seq![place, held]);
            lemma_has_address_kept(g1, graph@, buffer, i, home, high, place);
            assert(graph@[held as int] == g2[held as int]);
        }
        id
    } else {
        proof {
            lemma_ready_source(dag, start, parts@, u, Part::Address, 2);
            assert(graph@[u as int] == node);
        }
        let guard: usize = take_whole(parts, graph.source(u, 2));
        let id: usize = put_node(graph, Op::Store, dtype, &[place, held, guard]);
        proof {
            assert(graph@[id as int].srcs =~= seq![place, held, guard]);
            lemma_has_address_kept(g1, graph@, buffer, i, home, high, place);
            assert(graph@[held as int] == g2[held as int]);
        }
        id
    }
}

proof fn lemma_computes_later(
    before: Seq<NodeView>,
    after: Seq<NodeView>,
    op: BinaryOp,
    dtype: DType,
    a: Halves,
    b: Halves,
    h: Halves,
)
    requires
        keeps_amounts(before, after),
        a.stands(before),
        b.stands(before),
        computes(before, after, op, dtype, a, b, h),
    ensures
        computes(after, after, op, dtype, a, b, h),
{
    assert forall|at: spec_fn(usize) -> int| true implies both(after, a, at) == both(before, a, at)
        && both(after, b, at) == both(before, b, at) && #[trigger] both(after, h, at) == both(
        after,
        h,
        at,
    ) by {
        lemma_kept(before, after, a, at);
        lemma_kept(before, after, b, at);
    }
}

/// The words of a node of a narrow type: the upper one is filled with the sign.
#[verifier::spinoff_prover]
fn put_extended(graph: &mut Graph, w: usize) -> (h: Halves)
    requires
        old(graph).wf(),
        w < old(graph)@.len(),
        is_short(old(graph)@, w),
    ensures
        final(graph).wf(),
        keeps_amounts(old(graph)@, final(graph)@),
        h.stands(final(graph)@),
        forall|at: spec_fn(usize) -> int|
            #![trigger both(final(graph)@, h, at)]
            match amount(old(graph)@, w, at) {
                Some(n) => -0x8000_0000 <= n < half_count() ==> both(final(graph)@, h, at) == Some(
                    n % word_count(),
                ),
                None => true,
            },
{
    let ghost dag = graph@;
    proof {
        lemma_short_type(dag, w);
    }
    let dtype = graph.dtype(w);
    let low: usize = put_cast(graph, w, DType::UInt32);
    let ghost g1 = graph@;
    let nought: usize = put_number(graph, 0, dtype);
    let ghost g2 = graph@;
    let negative: usize = put_op(graph, BinaryOp::Lt, DType::Bool, w, nought);
    let ghost g3 = graph@;
    let ones: usize = put_number(graph, 0xffff_ffff, DType::UInt32);
    let ghost g4 = graph@;
    let zero: usize = put_number(graph, 0, DType::UInt32);
    let ghost g5 = graph@;
    let high: usize = put_choice(graph, DType::UInt32, negative, ones, zero);
    let h = Halves { low, high };
    proof {
        assert forall|at: spec_fn(usize) -> int|
            #![trigger both(graph@, h, at)]
            amount(dag, w, at) is Some && -0x8000_0000 <= amount(dag, w, at)->0
                < half_count() implies both(graph@, h, at) == Some(
            amount(dag, w, at)->0 % word_count(),
        ) by {
            let n = amount(dag, w, at)->0;
            assert(amount(graph@, low, at) == amount(g1, low, at));
            assert(amount(g1, low, at) == Some(n % half_count()));
            assert(amount(g2, nought, at) == Some(0int));
            assert(amount(g2, w, at) == Some(n));
            assert(amount(g5, negative, at) == amount(g3, negative, at));
            assert(amount(g5, ones, at) == amount(g4, ones, at));
            assert(amount(graph@, high, at) is Some);
        }
    }
    h
}

fn bits_at(value: ConstValue) -> (bits: u64)
    requires
        number_of(value) is Some,
    ensures
        bits == number_of(value)->0 % word_count(),
{
    match value {
        ConstValue::Int(n) => if n < 0 {
            (n as i128 + 0x1_0000_0000_0000_0000) as u64
        } else {
            n as u64
        },
        ConstValue::UInt(n) => n,
        ConstValue::Bool(b) => if b {
            1
        } else {
            0
        },
        _ => 0,
    }
}

/// The words of a number that is read.
#[verifier::spinoff_prover]
fn put_load(graph: &mut Graph, u: usize, parts: &Vec<Part>, Ghost(dag): Ghost<Seq<NodeView>>) -> (h:
    Halves)
    requires
        old(graph).wf(),
        is_ready(dag, old(graph)@, parts@, u),
        dag[u as int].op is Load,
        kind(dag, u) == Kind::Words,
    ensures
        final(graph).wf(),
        keeps_amounts(old(graph)@, final(graph)@),
        h.stands(final(graph)@),
        is_loaded(dag, final(graph)@, parts@, u, false, h.low),
        is_loaded(dag, final(graph)@, parts@, u, true, h.high),
{
    let ghost start = graph@;
    let low: usize = put_word_load(graph, u, parts, false, Ghost(dag));
    let ghost mid = graph@;
    proof {
        lemma_have_parts_kept(dag, start, mid, parts@, u);
        lemma_arity(dag, u);
        lemma_kind(dag, u);
    }
    let high: usize = put_word_load(graph, u, parts, true, Ghost(dag));
    proof {
        assert(graph@[low as int] == mid[low as int]);
        if dag[u as int].dtype == DType::Int64 {
            let l = mid[low as int].srcs[0];
            assert(l < low);
            lemma_load_kept(dag, mid, graph@, parts@, u, false, l);
        } else {
            lemma_load_kept(dag, mid, graph@, parts@, u, false, low);
        }
    }
    Halves { low, high }
}

/// The words that stand for a node.
#[verifier::rlimit(60)]
#[verifier::spinoff_prover]
fn put_words(graph: &mut Graph, u: usize, parts: &Vec<Part>, Ghost(dag): Ghost<Seq<NodeView>>) -> (h:
    Halves)
    requires
        old(graph).wf(),
        is_ready(dag, old(graph)@, parts@, u),
        kind(dag, u) == Kind::Words,
    ensures
        final(graph).wf(),
        keeps_amounts(old(graph)@, final(graph)@),
        h.stands(final(graph)@),
        words_ok(dag, final(graph)@, parts@, u, h),
{
    let ghost start = graph@;
    let ghost node = dag[u as int];
    proof {
        assert(graph@[u as int] == node);
        lemma_arity(dag, u);
        lemma_kind(dag, u);
        if node.srcs.len() > 0 {
            lemma_ready_source(dag, start, parts@, u, Part::Address, 0);
        }
        if node.srcs.len() > 1 {
            lemma_ready_source(dag, start, parts@, u, Part::Address, 1);
        }
        if node.srcs.len() > 2 {
            lemma_ready_source(dag, start, parts@, u, Part::Address, 2);
        }
    }
    let dtype = graph.dtype(u);
    match graph.op(u) {
        Op::Const(value) => put_constant(graph, bits_at(value)),
        Op::Binary(op) => {
            let a = take_words(parts, graph.source(u, 0));
            let b = take_words(parts, graph.source(u, 1));
            let h = match put_binary(graph, op, dtype, a, b) {
                Some(h) => h,
                None => a,
            };
            proof {
                lemma_computes_later(start, graph@, op, dtype, a, b, h);
            }
            h
        },
        Op::Ternary(_) => {
            let c: usize = take_whole(parts, graph.source(u, 0));
            let a = take_words(parts, graph.source(u, 1));
            let b = take_words(parts, graph.source(u, 2));
            let h = put_pick(graph, c, a, b);
            proof {
                assert forall|at: spec_fn(usize) -> int|
                    #![trigger both(graph@, h, at)]
                    amount(graph@, c, at) is Some implies both(graph@, h, at) == (if amount(
                    graph@,
                    c,
                    at,
                )->0 != 0 {
                    both(graph@, a, at)
                } else {
                    both(graph@, b, at)
                }) by {
                    lemma_kept(start, graph@, a, at);
                    lemma_kept(start, graph@, b, at);
                    assert(amount(graph@, c, at) == amount(start, c, at));
                }
            }
            h
        },
        Op::Cast => {
            let src: usize = graph.source(u, 0);
            match parts[src] {
                Part::Words(h) => {
                    proof {
                        lemma_keeps(start, start);
                    }
                    h
                },
                _ => {
                    let w: usize = take_whole(parts, src);
                    let h = put_extended(graph, w);
                    proof {
                        assert forall|at: spec_fn(usize) -> int|
                            #![trigger both(graph@, h, at)]
                            amount(graph@, w, at) is Some && -0x8000_0000 <= amount(graph@, w, at)->0
                                < half_count() implies both(graph@, h, at) == Some(
                            amount(graph@, w, at)->0 % word_count(),
                        ) by {
                            assert(amount(graph@, w, at) == amount(start, w, at));
                        }
                    }
                    h
                },
            }
        },
        _ => put_load(graph, u, parts, Ghost(dag)),
    }
}

/// A copy of a node over what stands for its sources.
fn put_copy(graph: &mut Graph, u: usize, parts: &Vec<Part>, Ghost(dag): Ghost<Seq<NodeView>>) -> (id:
    usize)
    requires
        old(graph).wf(),
        is_ready(dag, old(graph)@, parts@, u),
        forall|k: int|
            0 <= k < dag[u as int].srcs.len() ==> kind(dag, #[trigger] dag[u as int].srcs[k])
                == Kind::Whole,
        !is_long(dag[u as int].dtype),
    ensures
        final(graph).wf(),
        keeps_amounts(old(graph)@, final(graph)@),
        id < final(graph)@.len(),
        is_short(final(graph)@, id),
        final(graph)@[id as int] == with_srcs(
            dag[u as int],
            Seq::new(
                dag[u as int].srcs.len(),
                |k: int| whole(parts@[dag[u as int].srcs[k] as int]),
            ),
        ),
{
    let ghost start = graph@;
    let ghost node = dag[u as int];
    assert(graph@[u as int] == node);
    let op = graph.op(u);
    let dtype = graph.dtype(u);
    let count: usize = graph.source_count(u);
    let mut list: Vec<usize> = Vec::new();
    let mut k: usize = 0;
    while k < count
        invariant
            graph.wf(),
            graph@ == start,
            is_ready(dag, start, parts@, u),
            node == dag[u as int],
            graph@[u as int] == node,
            count == node.srcs.len(),
            k <= count,
            list@.len() == k,
            forall|j: int|
                0 <= j < count ==> kind(dag, #[trigger] dag[u as int].srcs[j]) == Kind::Whole,
            forall|j: int|
                0 <= j < k ==> #[trigger] list@[j] == whole(parts@[node.srcs[j] as int]),
            forall|j: int| 0 <= j < k ==> (#[trigger] list@[j]) < start.len(),
            forall|j: int| 0 <= j < k ==> is_short(start, #[trigger] list@[j]),
        decreases count - k,
    {
        let src: usize = graph.source(u, k);
        proof {
            lemma_ready_source(dag, start, parts@, u, Part::Address, k as int);
        }
        list.push(take_whole(parts, src));
        k += 1;
    }
    proof {
        lemma_arity(dag, u);
        assert(list@ =~= Seq::new(
            node.srcs.len(),
            |k: int| whole(parts@[node.srcs[k] as int]),
        ));
    }
    put_node(graph, op, dtype, list.as_slice())
}

/// The node that stands for a node.
#[verifier::rlimit(60)]
#[verifier::spinoff_prover]
fn put_whole(graph: &mut Graph, u: usize, parts: &Vec<Part>, Ghost(dag): Ghost<Seq<NodeView>>) -> (id:
    usize)
    requires
        old(graph).wf(),
        is_ready(dag, old(graph)@, parts@, u),
        kind(dag, u) == Kind::Whole,
    ensures
        final(graph).wf(),
        keeps_amounts(old(graph)@, final(graph)@),
        id < final(graph)@.len(),
        is_short(final(graph)@, id),
        whole_ok(dag, final(graph)@, parts@, u, id),
{
    let ghost start = graph@;
    let ghost node = dag[u as int];
    proof {
        assert(graph@[u as int] == node);
        lemma_arity(dag, u);
        lemma_kind(dag, u);
        if node.srcs.len() > 0 {
            lemma_ready_source(dag, start, parts@, u, Part::Address, 0);
        }
        if node.srcs.len() > 1 {
            lemma_ready_source(dag, start, parts@, u, Part::Address, 1);
        }
    }
    let op = graph.op(u);
    let dtype = graph.dtype(u);
    let count: usize = graph.source_count(u);
    if long_type(dtype) {
        let held = match op {
            Op::Buffer { slot, space, size } => Op::Buffer { slot, space, size: 2 * size },
            _ => op,
        };
        let id: usize = put_node(graph, held, stored_type(dtype), &[]);
        assert(graph@[id as int].srcs =~= node.srcs);
        return id;
    }
    let stored: bool = match op {
        Op::Store => match parts[graph.source(u, 1)] {
            Part::Words(_) => true,
            _ => false,
        },
        _ => false,
    };
    if stored {
        let low: usize = put_word_store(graph, u, parts, false, Ghost(dag));
        let ghost g1 = graph@;
        proof {
            lemma_have_parts_kept(dag, start, g1, parts@, u);
        }
        let high: usize = put_word_store(graph, u, parts, true, Ghost(dag));
        let ghost g2 = graph@;
        proof {
            lemma_have_parts_kept(dag, g1, g2, parts@, u);
            lemma_store_kept(dag, g1, g2, parts@, u, false, low);
        }
        let id: usize = put_node(graph, Op::Group, DType::Void, &[low, high]);
        proof {
            assert(graph@[id as int].srcs =~= seq![low, high]);
            lemma_store_kept(dag, g2, graph@, parts@, u, false, low);
            lemma_store_kept(dag, g2, graph@, parts@, u, true, high);
        }
        return id;
    }
    match op {
        Op::Cast => match parts[graph.source(u, 0)] {
            Part::Words(h) => {
                let id: usize = put_node(graph, Op::Cast, dtype, &[h.low]);
                assert(graph@[id as int].srcs =~= seq![h.low]);
                return id;
            },
            _ => {},
        },
        _ => {},
    }
    put_copy(graph, u, parts, Ghost(dag))
}

/// What stands for a node.
fn put_part(
    graph: &mut Graph,
    u: usize,
    kind: Kind,
    parts: &Vec<Part>,
    Ghost(dag): Ghost<Seq<NodeView>>,
) -> (part: Part)
    requires
        old(graph).wf(),
        is_ready(dag, old(graph)@, parts@, u),
        kind == self::kind(dag, u),
    ensures
        final(graph).wf(),
        keeps_amounts(old(graph)@, final(graph)@),
        part_ok(dag, final(graph)@, parts@.update(u as int, part), u),
{
    let ghost start = graph@;
    let part = match kind {
        Kind::Whole => Part::Whole(put_whole(graph, u, parts, Ghost(dag))),
        Kind::Words => Part::Words(put_words(graph, u, parts, Ghost(dag))),
        _ => {
            proof {
                lemma_keeps(start, start);
            }
            Part::Address
        },
    };
    proof {
        lemma_part_elsewhere(dag, graph@, parts@, u, part);
    }
    part
}

/// What stands for a node is right whatever stands for the node in the list
/// of the sources' parts.
#[verifier::rlimit(60)]
#[verifier::spinoff_prover]
proof fn lemma_part_elsewhere(
    dag: Seq<NodeView>,
    more: Seq<NodeView>,
    parts: Seq<Part>,
    u: usize,
    part: Part,
)
    requires
        dag_wf(dag),
        u < dag.len(),
        u < parts.len(),
        kind(dag, u) != Kind::Stuck,
        is_kind(more, part, kind(dag, u)),
        match part {
            Part::Whole(id) => whole_ok(dag, more, parts, u, id),
            Part::Words(h) => words_ok(dag, more, parts, u, h),
            Part::Address => true,
        },
    ensures
        part_ok(dag, more, parts.update(u as int, part), u),
{
    let next = parts.update(u as int, part);
    lemma_same_parts(dag, more, parts, next, u, part);
}

#[verifier::rlimit(60)]
#[verifier::spinoff_prover]
proof fn lemma_same_parts(
    dag: Seq<NodeView>,
    more: Seq<NodeView>,
    parts: Seq<Part>,
    next: Seq<Part>,
    u: usize,
    part: Part,
)
    requires
        dag_wf(dag),
        u < dag.len(),
        kind(dag, u) != Kind::Stuck,
        is_kind(more, part, kind(dag, u)),
        forall|x: usize| x < u ==> #[trigger] next[x as int] == parts[x as int],
        match part {
            Part::Whole(id) => whole_ok(dag, more, parts, u, id),
            Part::Words(h) => words_ok(dag, more, parts, u, h),
            Part::Address => true,
        },
    ensures
        match part {
            Part::Whole(id) => whole_ok(dag, more, next, u, id),
            Part::Words(h) => words_ok(dag, more, next, u, h),
            Part::Address => true,
        },
{
    let node = dag[u as int];
    lemma_arity(dag, u);
    lemma_kind(dag, u);
    assert forall|k: int| 0 <= k < node.srcs.len() implies next[(#[trigger] node.srcs[k]) as int]
        == parts[node.srcs[k] as int] by {
        assert(dag[u as int].srcs[k] < u);
    }
    if node.srcs.len() > 0 {
        assert(next[node.srcs[0] as int] == parts[node.srcs[0] as int]);
        let first = node.srcs[0];
        assert(dag[u as int].srcs[0] < u);
        lemma_arity(dag, first);
        lemma_kind(dag, first);
        if dag[first as int].srcs.len() > 1 {
            assert(dag[first as int].srcs[0] < first && dag[first as int].srcs[1] < first);
            assert(next[dag[first as int].srcs[0] as int] == parts[dag[first as int].srcs[0] as int]);
            assert(next[dag[first as int].srcs[1] as int] == parts[dag[first as int].srcs[1] as int]);
        }
    }
    if node.srcs.len() > 1 {
        assert(next[node.srcs[1] as int] == parts[node.srcs[1] as int]);
    }
    if node.srcs.len() > 2 {
        assert(next[node.srcs[2] as int] == parts[node.srcs[2] as int]);
    }
    match part {
        Part::Whole(id) => {
            assert(Seq::new(node.srcs.len(), |k: int| whole(next[node.srcs[k] as int]))
                =~= Seq::new(node.srcs.len(), |k: int| whole(parts[node.srcs[k] as int])));
        },
        _ => {},
    }
}

proof fn lemma_source_is_reached(dag: Seq<NodeView>, root: usize, u: usize, k: int)
    requires
        dag_wf(dag),
        root < dag.len(),
        reaches(dag, root, u),
        0 <= k < dag[u as int].srcs.len(),
    ensures
        u <= root,
        dag[u as int].srcs[k] < u,
        reaches(dag, root, dag[u as int].srcs[k]),
{
    lemma_reaches_below(dag, root, u);
    let v = dag[u as int].srcs[k];
    assert(v < u);
    assert(reaches(dag, u, v)) by {
        assert(reaches(dag, v, v));
    }
    lemma_reaches_transitive(dag, root, u, v);
}

/// The sources of a node have parts where all reached nodes before it have.
proof fn lemma_parts_below(
    dag: Seq<NodeView>,
    root: usize,
    more: Seq<NodeView>,
    parts: Seq<Part>,
    u: usize,
    n: usize,
)
    requires
        dag_wf(dag),
        root < dag.len(),
        parts.len() == root + 1,
        reaches(dag, root, u),
        u <= n,
        forall|x: usize| x < n && #[trigger] reaches(dag, root, x) ==> part_ok(dag, more, parts, x),
    ensures
        have_parts(dag, more, parts, u),
{
    lemma_reaches_below(dag, root, u);
    assert forall|k: int| 0 <= k < dag[u as int].srcs.len() implies {
        let src = #[trigger] dag[u as int].srcs[k];
        &&& src < parts.len()
        &&& is_kind(more, parts[src as int], kind(dag, src))
    } by {
        lemma_source_is_reached(dag, root, u, k);
        assert(part_ok(dag, more, parts, dag[u as int].srcs[k]));
    }
    assert forall|k: int, j: int|
        #![trigger dag[dag[u as int].srcs[k] as int].srcs[j]]
        0 <= k < dag[u as int].srcs.len() && 0 <= j < dag[dag[u as int].srcs[k] as int].srcs.len()
            && kind(dag, dag[u as int].srcs[k]) == Kind::Address implies {
        let src = dag[dag[u as int].srcs[k] as int].srcs[j];
        &&& src < parts.len()
        &&& is_kind(more, parts[src as int], kind(dag, src))
    } by {
        lemma_source_is_reached(dag, root, u, k);
        lemma_source_is_reached(dag, root, dag[u as int].srcs[k], j);
        assert(part_ok(dag, more, parts, dag[dag[u as int].srcs[k] as int].srcs[j]));
    }
}

/// What stands for the nodes before one stays right when one more has a part.
proof fn lemma_parts_kept(
    dag: Seq<NodeView>,
    root: usize,
    more: Seq<NodeView>,
    next: Seq<NodeView>,
    parts: Seq<Part>,
    u: usize,
    part: Part,
)
    requires
        dag_wf(dag),
        dag_wf(more),
        root < dag.len(),
        u <= root,
        parts.len() == root + 1,
        keeps_amounts(more, next),
        forall|x: usize| #[trigger] reaches(dag, root, x) ==> kind(dag, x) != Kind::Stuck,
        forall|x: usize| x < u && #[trigger] reaches(dag, root, x) ==> part_ok(dag, more, parts, x),
    ensures
        forall|x: usize|
            x < u && #[trigger] reaches(dag, root, x) ==> part_ok(
                dag,
                next,
                parts.update(u as int, part),
                x,
            ),
{
    let changed = parts.update(u as int, part);
    assert forall|x: usize| x < u && #[trigger] reaches(dag, root, x) implies part_ok(
        dag,
        next,
        changed,
        x,
    ) by {
        lemma_parts_below(dag, root, more, parts, x, u);
        lemma_part_kept(dag, more, next, parts, x);
        lemma_same_parts(dag, next, parts, changed, x, parts[x as int]);
    }
}

/// What the nodes up to a root become, and which of them it reaches; nothing
/// where they cannot be split.
#[verifier::rlimit(40)]
#[verifier::spinoff_prover]
fn find_plan(graph: &Graph, root: usize) -> (plan: Option<(Vec<Kind>, Vec<bool>)>)
    requires
        graph.wf(),
        root < graph@.len(),
    ensures
        plan is Some <==> can_split(graph@, root),
        plan matches Some(found) ==> {
            &&& found.0@.len() == root + 1
            &&& forall|x: usize| x <= root ==> #[trigger] found.0@[x as int] == kind(graph@, x)
            &&& found.1@.len() == root + 1
            &&& forall|x: usize|
                x <= root ==> (#[trigger] found.1@[x as int] <==> reaches(graph@, root, x))
        },
{
    let ghost dag = graph@;
    let kinds = find_kinds(graph, root);
    let walk = graph.toposort(root);
    proof {
        lemma_topo(dag, root);
    }
    let mut seen: Vec<bool> = Vec::new();
    let mut id: usize = 0;
    while id < root
        invariant
            id <= root,
            seen@.len() == id,
            forall|x: int| 0 <= x < id ==> !(#[trigger] seen@[x]),
        decreases root - id,
    {
        seen.push(false);
        id += 1;
    }
    seen.push(false);
    let mut n: usize = 0;
    while n < walk.len()
        invariant
            graph.wf(),
            graph@ == dag,
            root < dag.len(),
            n <= walk@.len(),
            walk@ == topo(dag, root),
            forall|x: usize| #[trigger] walk@.contains(x) <==> reaches(dag, root, x),
            kinds@.len() == root + 1,
            forall|x: usize| x <= root ==> #[trigger] kinds@[x as int] == kind(dag, x),
            seen@.len() == root + 1,
            forall|x: usize|
                x <= root ==> (#[trigger] seen@[x as int] <==> walk@.take(n as int).contains(x)),
            forall|i: int| 0 <= i < n ==> kind(dag, #[trigger] walk@[i]) != Kind::Stuck,
        decreases walk@.len() - n,
    {
        let u: usize = walk[n];
        proof {
            assert(walk@.contains(u));
            lemma_reaches_below(dag, root, u);
            assert(kinds@[u as int] == kind(dag, u));
        }
        if kinds[u] == Kind::Stuck {
            return None;
        }
        let ghost before = seen@;
        seen.set(u, true);
        proof {
            let had = walk@.take(n as int);
            let now = walk@.take(n + 1);
            assert(now =~= had.push(u));
            assert forall|x: usize| x <= root implies (#[trigger] seen@[x as int]
                <==> now.contains(x)) by {
                lemma_push_contains(had, u, x);
                assert(before[x as int] <==> had.contains(x));
            }
        }
        n += 1;
    }
    proof {
        assert(walk@.take(walk@.len() as int) =~= walk@);
        assert forall|x: usize| #[trigger] reaches(dag, root, x) implies kind(dag, x)
            != Kind::Stuck by {
            assert(walk@.contains(x));
            let i = choose|i: int| 0 <= i < walk@.len() && walk@[i] == x;
            assert(kind(dag, walk@[i]) != Kind::Stuck);
        }
        assert(kinds@[root as int] == kind(dag, root));
    }
    if kinds[root] != Kind::Whole {
        return None;
    }
    Some((kinds, seen))
}

/// Splits everything at and below a root by a plan.
#[verifier::rlimit(40)]
#[verifier::spinoff_prover]
fn put_parts(graph: &mut Graph, root: usize, kinds: &Vec<Kind>, seen: &Vec<bool>) -> (new: usize)
    requires
        old(graph).wf(),
        root < old(graph)@.len(),
        can_split(old(graph)@, root),
        kinds@.len() == root + 1,
        forall|x: usize| x <= root ==> #[trigger] kinds@[x as int] == kind(old(graph)@, x),
        seen@.len() == root + 1,
        forall|x: usize|
            x <= root ==> (#[trigger] seen@[x as int] <==> reaches(old(graph)@, root, x)),
    ensures
        final(graph).wf(),
        extends(old(graph)@, final(graph)@),
        new < final(graph)@.len(),
        is_short(final(graph)@, new),
        exists|parts: Seq<Part>| #[trigger]
            is_split(old(graph)@, root, final(graph)@, parts, new),
{
    let ghost dag = graph@;
    let mut parts: Vec<Part> = Vec::new();
    let mut id: usize = 0;
    while id < root
        invariant
            id <= root,
            parts@.len() == id,
        decreases root - id,
    {
        parts.push(Part::Address);
        id += 1;
    }
    parts.push(Part::Address);
    proof {
        lemma_keeps(dag, dag);
    }
    let mut u: usize = 0;
    while u < root
        invariant
            graph.wf(),
            dag_wf(dag),
            keeps_amounts(dag, graph@),
            u <= root < dag.len(),
            kinds@.len() == root + 1,
            forall|x: usize| x <= root ==> #[trigger] kinds@[x as int] == kind(dag, x),
            seen@.len() == root + 1,
            forall|x: usize| x <= root ==> (#[trigger] seen@[x as int] <==> reaches(dag, root, x)),
            forall|x: usize| #[trigger] reaches(dag, root, x) ==> kind(dag, x) != Kind::Stuck,
            parts@.len() == root + 1,
            forall|x: usize|
                x < u && #[trigger] reaches(dag, root, x) ==> part_ok(dag, graph@, parts@, x),
        decreases root - u,
    {
        let found: bool = seen[u];
        assert(found == reaches(dag, root, u));
        if found {
            let ghost held = graph@;
            let ghost had = parts@;
            proof {
                lemma_parts_below(dag, root, held, had, u, u);
                assert(kinds@[u as int] == kind(dag, u));
            }
            let part = put_part(graph, u, kinds[u], &parts, Ghost(dag));
            parts.set(u, part);
            proof {
                assert(parts@ =~= had.update(u as int, part));
                lemma_parts_kept(dag, root, held, graph@, had, u, part);
            }
        }
        u += 1;
    }
    let ghost held = graph@;
    let ghost had = parts@;
    proof {
        assert(reaches(dag, root, root));
        lemma_parts_below(dag, root, held, had, root, root);
    }
    let part = put_part(graph, root, Kind::Whole, &parts, Ghost(dag));
    proof {
        let all = had.update(root as int, part);
        lemma_parts_kept(dag, root, held, graph@, had, root, part);
        assert forall|x: usize| #[trigger] reaches(dag, root, x) implies part_ok(
            dag,
            graph@,
            all,
            x,
        ) by {
            lemma_reaches_below(dag, root, x);
        }
        assert(is_split(dag, root, graph@, all, whole(part)));
    }
    match part {
        Part::Whole(id) => id,
        _ => root,
    }
}


/// Splits the 64-bit integers at and below a root, so that none is left; nothing
/// is done where that cannot be done. See `can_split` and `is_split`.
pub fn split_longs(graph: &mut Graph, root: usize) -> (new: Option<usize>)
    requires
        old(graph).wf(),
        root < old(graph)@.len(),
    ensures
        final(graph).wf(),
        extends(old(graph)@, final(graph)@),
        new is Some <==> can_split(old(graph)@, root),
        match new {
            Some(id) => id < final(graph)@.len() && exists|parts: Seq<Part>| #[trigger]
                is_split(old(graph)@, root, final(graph)@, parts, id),
            None => final(graph)@ == old(graph)@,
        },
        new matches Some(id) ==> forall|x: usize| #[trigger]
            reaches(final(graph)@, id, x) ==> !is_long(final(graph)@[x as int].dtype),
{
    match find_plan(graph, root) {
        Some((kinds, seen)) => {
            let new: usize = put_parts(graph, root, &kinds, &seen);
            proof {
                reveal(is_short);
            }
            Some(new)
        },
        None => None,
    }
}

} // verus!
