//! Products of matrix fragments whose operands broadcast, as stacks of products
//! of single fragments.

use vstd::prelude::*;

use crate::algebra::{element_count, elements};
use crate::builders::{lemma_interned_keeps, put, Built};
use crate::coordinates::{number_stack, put_number_stack};
use crate::expand::{fragments, leading, product_shape, wmma_fragments, wmma_shape};
use crate::graph::{arity_ok, DType, Graph, NodeView, Op};
use crate::lanes::{find_lanes, lane_dims};
use crate::late::made;
use crate::meaning::lemma_arity;
use crate::pad::Listed;
use crate::passes::{extends, grown};
use crate::product::{are_indices, as_indices, find_indices, put_reshaped, reshaped};
use crate::product_shape::lemma_reshaped;
use crate::shape::dims;

verus! {

/// How a product is taken apart: the number and the size of the fragments of
/// each operand, which two are multiplied for each fragment of the product, and
/// the shape of the product.
#[verifier::ext_equal]
pub struct Parts {
    pub left: Seq<usize>,
    pub right: Seq<usize>,
    pub pairs: Seq<(usize, usize)>,
    pub shape: Seq<usize>,
}

/// The number of fragments of a shape, and their size.
pub open spec fn rows_of(shape: Seq<usize>) -> Seq<usize> {
    seq![elements(leading(shape)) as usize, shape.last()]
}

/// Whether the numbers of fragments can be written as indices.
pub open spec fn are_pairs(pairs: Seq<(usize, usize)>) -> bool {
    forall|k: int|
        0 <= k < pairs.len() ==> (#[trigger] pairs[k]).0 <= i64::MAX && pairs[k].1 <= i64::MAX
}

/// Whether a product can be taken apart: there is something to take apart, and
/// all numbers can be written.
pub open spec fn can_part(a: Seq<usize>, b: Seq<usize>, parts: Parts) -> bool {
    &&& elements(leading(a)) <= usize::MAX
    &&& elements(leading(b)) <= usize::MAX
    &&& elements(parts.shape.drop_last()) <= usize::MAX
    &&& parts.pairs.len() > 0
    &&& are_indices(parts.left)
    &&& are_indices(parts.right)
    &&& are_pairs(parts.pairs)
    &&& are_indices(parts.shape)
}

/// How a product is taken apart. Nothing where its operands have no leading
/// axes, or more than the lanes of a fragment is added to.
pub open spec fn parts_of(dag: Seq<NodeView>, id: usize) -> Option<Parts> {
    let node = dag[id as int];
    if !(node.op is Wmma) || node.srcs.len() != 3 {
        None
    } else {
        match (
            lane_dims(dag, node.srcs[0]),
            lane_dims(dag, node.srcs[1]),
            lane_dims(dag, node.srcs[2]),
        ) {
            (Some(a), Some(b), Some(c)) => if a.len() < 2 || b.len() < 2 || c.len() != 1 {
                None
            } else {
                match product_shape(a, b, c[0]) {
                    Some(shape) => {
                        let parts = Parts {
                            left: rows_of(a),
                            right: rows_of(b),
                            pairs: fragments(a, b, shape.drop_last()),
                            shape,
                        };
                        if can_part(a, b, parts) {
                            Some(parts)
                        } else {
                            None
                        }
                    },
                    None => None,
                }
            },
            _ => None,
        }
    }
}

/// One row of a value of two axes, as a value of one.
pub open spec fn row_of(dag: Seq<NodeView>, rows: usize, dtype: DType, at: usize, len: usize) -> Built {
    let starts = number_stack(dag, seq![at as i64, 0i64], DType::WeakInt);
    let sizes = number_stack(starts.dag, seq![1i64, len as i64], DType::WeakInt);
    let row = put(
        sizes.dag,
        NodeView { op: Op::Shrink, dtype, srcs: seq![rows, starts.id, sizes.id] },
    );
    reshaped(row.dag, row.id, dtype, seq![len])
}

/// The product of a fragment of each of two operands whose fragments are their
/// rows.
pub open spec fn fragment_product(
    dag: Seq<NodeView>,
    op: Op,
    dtype: DType,
    rows: (usize, usize),
    lens: (usize, usize),
    pair: (usize, usize),
    c: usize,
) -> Built {
    let a = row_of(dag, rows.0, dag[rows.0 as int].dtype, pair.0, lens.0);
    let b = row_of(a.dag, rows.1, a.dag[rows.1 as int].dtype, pair.1, lens.1);
    put(b.dag, NodeView { op, dtype, srcs: seq![a.id, b.id, c] })
}

/// The products of the first `n` pairs of fragments.
pub open spec fn fragment_products(
    dag: Seq<NodeView>,
    op: Op,
    dtype: DType,
    rows: (usize, usize),
    lens: (usize, usize),
    pairs: Seq<(usize, usize)>,
    c: usize,
    n: nat,
) -> Listed
    decreases n,
{
    if n == 0 {
        Listed { dag, srcs: Seq::empty() }
    } else {
        let rest = fragment_products(dag, op, dtype, rows, lens, pairs, c, (n - 1) as nat);
        let last = fragment_product(rest.dag, op, dtype, rows, lens, pairs[n - 1], c);
        Listed { dag: last.dag, srcs: rest.srcs.push(last.id) }
    }
}

/// What a product becomes that is taken apart: a stack of products of single
/// fragments, in the shape of the product.
pub open spec fn parted(dag: Seq<NodeView>, node: NodeView, parts: Parts) -> Built {
    let (op, dtype, srcs) = (node.op, node.dtype, node.srcs);
    let a = reshaped(dag, srcs[0], dag[srcs[0] as int].dtype, parts.left);
    let b = reshaped(a.dag, srcs[1], a.dag[srcs[1] as int].dtype, parts.right);
    let list = fragment_products(
        b.dag,
        op,
        dtype,
        (a.id, b.id),
        (parts.left[1], parts.right[1]),
        parts.pairs,
        srcs[2],
        parts.pairs.len(),
    );
    let stack = put(list.dag, NodeView { op: Op::Stack, dtype, srcs: list.srcs });
    reshaped(stack.dag, stack.id, dtype, parts.shape)
}

/// What a product whose operands broadcast becomes; see `parts_of`.
pub open spec fn broadcast_product(dag: Seq<NodeView>, id: usize) -> Option<Built> {
    let node = dag[id as int];
    match parts_of(dag, id) {
        Some(parts) => Some(parted(dag, node, parts)),
        None => None,
    }
}

fn put_row(graph: &mut Graph, rows: usize, dtype: DType, at: i64, len: i64, Ghost(q): Ghost<usize>, Ghost(
    size,
): Ghost<usize>) -> (id: usize)
    requires
        old(graph).wf(),
        rows < old(graph)@.len(),
        at == q as i64,
        len == size as i64,
    ensures
        grown(old(graph)@, *final(graph), row_of(old(graph)@, rows, dtype, q, size), id),
{
    let first: Vec<i64> = vec![at, 0];
    let second: Vec<i64> = vec![1, len];
    assert(first@ =~= seq![q as i64, 0i64]);
    assert(second@ =~= seq![1i64, size as i64]);
    let starts: usize = put_number_stack(graph, &first, DType::WeakInt);
    let sizes: usize = put_number_stack(graph, &second, DType::WeakInt);
    proof {
        lemma_interned_keeps(
            graph@,
            NodeView { op: Op::Shrink, dtype, srcs: seq![rows, starts, sizes] },
        );
    }
    let row: usize = graph.ternary(Op::Shrink, dtype, rows, starts, sizes);
    let whole: Vec<i64> = vec![len];
    let ghost shape = seq![size];
    assert(whole@ =~= as_indices(shape));
    put_reshaped(graph, row, dtype, &whole, Ghost(shape))
}

fn put_fragment(
    graph: &mut Graph,
    op: Op,
    dtype: DType,
    rows: (usize, usize),
    lens: (usize, usize),
    pair: (usize, usize),
    c: usize,
) -> (id: usize)
    requires
        old(graph).wf(),
        rows.0 < old(graph)@.len(),
        rows.1 < old(graph)@.len(),
        c < old(graph)@.len(),
        arity_ok(op, 3),
    ensures
        grown(
            old(graph)@,
            *final(graph),
            fragment_product(old(graph)@, op, dtype, rows, lens, pair, c),
            id,
        ),
{
    let left = graph.dtype(rows.0);
    let a: usize = put_row(
        graph,
        rows.0,
        left,
        pair.0 as i64,
        lens.0 as i64,
        Ghost(pair.0),
        Ghost(lens.0),
    );
    let right = graph.dtype(rows.1);
    let b: usize = put_row(
        graph,
        rows.1,
        right,
        pair.1 as i64,
        lens.1 as i64,
        Ghost(pair.1),
        Ghost(lens.1),
    );
    proof {
        lemma_interned_keeps(graph@, NodeView { op, dtype, srcs: seq![a, b, c] });
    }
    graph.ternary(op, dtype, a, b, c)
}

fn put_fragments(
    graph: &mut Graph,
    op: Op,
    dtype: DType,
    rows: (usize, usize),
    lens: (usize, usize),
    pairs: &Vec<(usize, usize)>,
    c: usize,
) -> (ids: Vec<usize>)
    requires
        old(graph).wf(),
        rows.0 < old(graph)@.len(),
        rows.1 < old(graph)@.len(),
        c < old(graph)@.len(),
        arity_ok(op, 3),
    ensures
        final(graph).wf(),
        extends(old(graph)@, final(graph)@),
        fragment_products(old(graph)@, op, dtype, rows, lens, pairs@, c, pairs@.len()) == (Listed {
            dag: final(graph)@,
            srcs: ids@,
        }),
        ids@.len() == pairs@.len(),
        forall|k: int| 0 <= k < ids@.len() ==> (#[trigger] ids@[k]) < final(graph)@.len(),
{
    let ghost dag = graph@;
    let mut ids: Vec<usize> = Vec::new();
    let mut n: usize = 0;
    while n < pairs.len()
        invariant
            graph.wf(),
            n <= pairs@.len(),
            rows.0 < dag.len(),
            rows.1 < dag.len(),
            c < dag.len(),
            arity_ok(op, 3),
            extends(dag, graph@),
            ids@.len() == n,
            fragment_products(dag, op, dtype, rows, lens, pairs@, c, n as nat) == (Listed {
                dag: graph@,
                srcs: ids@,
            }),
            forall|k: int| 0 <= k < ids@.len() ==> (#[trigger] ids@[k]) < graph@.len(),
        decreases pairs@.len() - n,
    {
        let id: usize = put_fragment(graph, op, dtype, rows, lens, pairs[n], c);
        ids.push(id);
        n += 1;
    }
    ids
}

/// How a product is taken apart, as it is computed.
#[derive(Debug)]
struct FoundParts {
    pub left: Vec<usize>,
    pub right: Vec<usize>,
    pub pairs: Vec<(usize, usize)>,
    pub shape: Vec<usize>,
}

fn find_rows(shape: &Vec<usize>) -> (rows: Option<Vec<usize>>)
    requires
        shape@.len() >= 1,
    ensures
        match rows {
            Some(list) => elements(leading(shape@)) <= usize::MAX && list@ == rows_of(shape@),
            None => elements(leading(shape@)) > usize::MAX,
        },
{
    let mut lead: Vec<usize> = Vec::new();
    let last: usize = shape.len() - 1;
    let mut k: usize = 0;
    while k < last
        invariant
            last == shape@.len() - 1,
            k <= last,
            lead@ == shape@.drop_last().take(k as int),
        decreases last - k,
    {
        lead.push(shape[k]);
        k += 1;
        assert(lead@ =~= shape@.drop_last().take(k as int));
    }
    assert(lead@ =~= leading(shape@));
    match element_count(&lead) {
        Some(count) => {
            let rows: Vec<usize> = vec![count, shape[last]];
            assert(rows@ =~= rows_of(shape@));
            Some(rows)
        },
        None => None,
    }
}

fn find_pairs_fit(pairs: &Vec<(usize, usize)>) -> (r: bool)
    ensures
        r == are_pairs(pairs@),
{
    let mut k: usize = 0;
    while k < pairs.len()
        invariant
            k <= pairs@.len(),
            forall|j: int|
                0 <= j < k ==> (#[trigger] pairs@[j]).0 <= i64::MAX && pairs@[j].1 <= i64::MAX,
        decreases pairs@.len() - k,
    {
        if pairs[k].0 as u64 > i64::MAX as u64 || pairs[k].1 as u64 > i64::MAX as u64 {
            assert(pairs@[k as int].0 > i64::MAX || pairs@[k as int].1 > i64::MAX);
            return false;
        }
        k += 1;
    }
    true
}

fn find_parts(graph: &Graph, id: usize) -> (found: Option<FoundParts>)
    requires
        graph.wf(),
        id < graph@.len(),
    ensures
        match (found, parts_of(graph@, id)) {
            (Some(own), Some(parts)) => {
                &&& own.left@ == parts.left
                &&& own.right@ == parts.right
                &&& own.pairs@ == parts.pairs
                &&& own.shape@ == parts.shape
            },
            (None, None) => true,
            _ => false,
        },
{
    proof {
        lemma_arity(graph@, id);
    }
    match graph.op(id) {
        Op::Wmma(_) => {},
        _ => {
            return None;
        },
    }
    if graph.source_count(id) != 3 {
        return None;
    }
    let (a, b, c) = match (
        find_lanes(graph, graph.source(id, 0)),
        find_lanes(graph, graph.source(id, 1)),
        find_lanes(graph, graph.source(id, 2)),
    ) {
        (Some(a), Some(b), Some(c)) => (a, b, c),
        _ => {
            return None;
        },
    };
    if a.len() < 2 || b.len() < 2 || c.len() != 1 {
        return None;
    }
    let shape = match wmma_shape(&a, &b, c[0]) {
        Some(shape) => shape,
        None => {
            return None;
        },
    };
    proof {
        lemma_product_shape(a@, b@, c@[0]);
    }
    let pairs = match wmma_fragments(&a, &b) {
        Some(pairs) => pairs,
        None => {
            return None;
        },
    };
    if pairs.len() == 0 {
        return None;
    }
    match (find_rows(&a), find_rows(&b)) {
        (Some(left), Some(right)) => {
            let fits: bool = find_indices(&left).is_some() && find_indices(&right).is_some()
                && find_indices(&shape).is_some() && find_pairs_fit(&pairs);
            if fits {
                Some(FoundParts { left, right, pairs, shape })
            } else {
                None
            }
        },
        _ => None,
    }
}

/// The leading sizes of a product do not depend on its lanes.
proof fn lemma_product_shape(a: Seq<usize>, b: Seq<usize>, lanes: usize)
    ensures
        product_shape(a, b, lanes) is Some == product_shape(a, b, 0) is Some,
        product_shape(a, b, lanes) matches Some(shape) ==> shape.drop_last() == product_shape(
            a,
            b,
            0,
        )->0.drop_last(),
{
    if product_shape(a, b, lanes) is Some {
        assert(product_shape(a, b, lanes)->0.drop_last() =~= product_shape(a, b, 0)->0.drop_last());
    }
}

/// Takes a product apart whose operands broadcast; see `broadcast_product`. The
/// shape stays.
pub fn expand_broadcast(graph: &mut Graph, id: usize) -> (new: Option<usize>)
    requires
        old(graph).wf(),
        id < old(graph)@.len(),
    ensures
        made(old(graph)@, *final(graph), broadcast_product(old(graph)@, id), new),
        new matches Some(at) ==> dims(final(graph)@, at) is Some && dims(final(graph)@, at)
            == lane_dims(old(graph)@, id),
{
    let ghost dag = graph@;
    let found = match find_parts(graph, id) {
        Some(found) => found,
        None => {
            return None;
        },
    };
    let ghost parts = parts_of(dag, id)->0;
    proof {
        lemma_arity(dag, id);
    }
    let op = graph.op(id);
    let dtype = graph.dtype(id);
    let (first, second, c): (usize, usize, usize) = (
        graph.source(id, 0),
        graph.source(id, 1),
        graph.source(id, 2),
    );
    let (left, right, shape) = match (
        find_indices(&found.left),
        find_indices(&found.right),
        find_indices(&found.shape),
    ) {
        (Some(left), Some(right), Some(shape)) => (left, right, shape),
        _ => {
            assert(false);
            return None;
        },
    };
    let left_type = graph.dtype(first);
    let a: usize = put_reshaped(graph, first, left_type, &left, Ghost(parts.left));
    let right_type = graph.dtype(second);
    let b: usize = put_reshaped(graph, second, right_type, &right, Ghost(parts.right));
    let ids = put_fragments(
        graph,
        op,
        dtype,
        (a, b),
        (found.left[1], found.right[1]),
        &found.pairs,
        c,
    );
    proof {
        lemma_interned_keeps(graph@, NodeView { op: Op::Stack, dtype, srcs: ids@ });
    }
    let stack: usize = graph.node(Op::Stack, dtype, &ids);
    let ghost held = graph@;
    let new: usize = put_reshaped(graph, stack, dtype, &shape, Ghost(parts.shape));
    proof {
        lemma_reshaped(held, stack, dtype, parts.shape);
    }
    Some(new)
}

} // verus!
