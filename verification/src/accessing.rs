//! What accesses read and write, with conditions in their addresses and with
//! conditions of their own.

use vstd::prelude::*;

use crate::builders::{cast_node, const_node, lemma_interned_keeps, put};
use crate::graph::{dag_wf, BinaryOp, ConstValue, DType, NodeView, Op, TernaryOp};
use crate::indexing::{condition_of, disjunction, idx_of, is_gated, merged_range, some_always};
use crate::meaning::lemma_arity;
use crate::passes::{
    all_invalid, bare_address, bool_storage, extends, fold_invalid, guard_of, is_guarded, is_invalid, lemma_put,
    move_guard,
    width, with_srcs, zero_of, zeros,
};

verus! {

/// What an address reaches: some storage at some indices, or nothing where its
/// index is invalid.
pub open spec fn reached(dag: Seq<NodeView>, address: usize, holds: spec_fn(usize) -> bool) -> Option<
    Seq<usize>,
> {
    let node = dag[address as int];
    if node.op is Index && node.srcs.len() > 1 {
        let index = dag[node.srcs[1] as int];
        if all_invalid(dag, node.srcs[1]) {
            None
        } else if index.op == Op::Ternary(TernaryOp::Where) && all_invalid(dag, index.srcs[2]) {
            if holds(index.srcs[0]) {
                Some(node.srcs.update(1, index.srcs[1]))
            } else {
                None
            }
        } else {
            Some(node.srcs)
        }
    } else {
        Some(seq![address])
    }
}

/// What a load gives: what an address reaches, an alternative, or zero.
pub enum Read {
    From(Seq<usize>),
    Else(usize),
    Zero,
}

/// Whether a node is a zero of a type, in some lanes.
pub open spec fn is_zero(dag: Seq<NodeView>, id: usize, dtype: DType) -> bool {
    let zero = const_node(zero_of(dtype), dtype);
    ||| dag[id as int] == zero
    ||| dag[id as int].op is Stack && dag[id as int].dtype == dtype && forall|k: int|
        0 <= k < dag[id as int].srcs.len() ==> dag[(#[trigger] dag[id as int].srcs[k]) as int]
            == zero
}

/// What a load gives under some conditions. A load without an alternative gives
/// zero where its address reaches nothing, and one with an alternative gives
/// that where its condition does not hold.
pub open spec fn loaded(dag: Seq<NodeView>, id: usize, holds: spec_fn(usize) -> bool) -> Read {
    let node = dag[id as int];
    if node.srcs.len() == 3 && (!holds(node.srcs[2]) || reached(dag, node.srcs[0], holds) is None) {
        if is_zero(dag, node.srcs[1], node.dtype) {
            Read::Zero
        } else {
            Read::Else(node.srcs[1])
        }
    } else {
        match reached(dag, node.srcs[0], holds) {
            Some(place) => Read::From(place),
            None => Read::Zero,
        }
    }
}

/// What a store writes and where, under some conditions.
pub open spec fn written(dag: Seq<NodeView>, id: usize, holds: spec_fn(usize) -> bool) -> Option<
    (Seq<usize>, usize),
> {
    let node = dag[id as int];
    if node.srcs.len() == 3 && !holds(node.srcs[2]) {
        None
    } else {
        match reached(dag, node.srcs[0], holds) {
            Some(place) => Some((place, node.srcs[1])),
            None => None,
        }
    }
}

proof fn lemma_zeros(dag: Seq<NodeView>, dtype: DType, lanes: nat)
    requires
        zeros(dag, dtype, lanes).dag.len() <= usize::MAX,
    ensures
        extends(dag, zeros(dag, dtype, lanes).dag),
        dag.len() <= zeros(dag, dtype, lanes).dag.len(),
        zeros(dag, dtype, lanes).id < zeros(dag, dtype, lanes).dag.len(),
        is_zero(zeros(dag, dtype, lanes).dag, zeros(dag, dtype, lanes).id, dtype),
        ({
            let new = zeros(dag, dtype, lanes);
            forall|k: int|
                0 <= k < new.dag[new.id as int].srcs.len() ==> (
                #[trigger] new.dag[new.id as int].srcs[k]) < new.dag.len()
        }),
{
    let first = const_node(zero_of(dtype), dtype);
    let one = put(dag, first);
    let want = NodeView { op: Op::Stack, dtype, srcs: Seq::new(lanes, |i: int| one.id) };
    lemma_interned_keeps(dag, first);
    lemma_interned_keeps(one.dag, want);
    lemma_put(dag, first);
    if lanes != 1 {
        lemma_put(one.dag, want);
    }
}

proof fn lemma_zeros_grow(dag: Seq<NodeView>, dtype: DType, lanes: nat)
    ensures
        dag.len() <= zeros(dag, dtype, lanes).dag.len(),
{
    let first = const_node(zero_of(dtype), dtype);
    let one = put(dag, first);
    lemma_interned_keeps(dag, first);
    lemma_interned_keeps(
        one.dag,
        NodeView { op: Op::Stack, dtype, srcs: Seq::new(lanes, |i: int| one.id) },
    );
}

/// What an address reaches that had a condition.
proof fn lemma_bare(
    dag: Seq<NodeView>,
    more: Seq<NodeView>,
    address: usize,
    bare: usize,
    holds: spec_fn(usize) -> bool,
)
    requires
        dag_wf(dag),
        extends(dag, more),
        address < dag.len(),
        is_guarded(dag, address),
        more[bare as int] == bare_address(dag, address),
        is_plain(dag, dag[dag[address as int].srcs[1] as int].srcs[1]),
        !all_invalid(dag, dag[address as int].srcs[1]),
    ensures
        reached(more, bare, holds) == Some(more[bare as int].srcs),
        reached(dag, address, holds) == if holds(guard_of(dag, address)) {
            Some(more[bare as int].srcs)
        } else {
            None
        },
{
    let node = dag[address as int];
    let at = node.srcs[1];
    assert(dag[address as int].srcs[1] < address);
    lemma_arity(dag, at);
    let inner = dag[at as int].srcs[1];
    assert(dag[at as int].srcs[1] < at);
    assert(more[bare as int].srcs[1] == inner);
    assert(more[inner as int] == dag[inner as int]);
    if dag[inner as int].op is Stack {
        if all_invalid(more, inner) {
            assert forall|k: int| 0 <= k < dag[inner as int].srcs.len() implies is_invalid(
                dag,
                #[trigger] dag[inner as int].srcs[k],
            ) by {
                assert(dag[inner as int].srcs[k] < inner);
                assert(is_invalid(more, more[inner as int].srcs[k]));
            }
        }
    }
}

/// Whether an index has no condition and is not invalid.
pub open spec fn is_plain(dag: Seq<NodeView>, id: usize) -> bool {
    !all_invalid(dag, id) && dag[id as int].op != Op::Ternary(TernaryOp::Where)
}

/// Moving the condition of an address to the access keeps what is read and what
/// is written, whatever holds. A choice between a load and something else by the
/// load's own condition is the load with that alternative.
#[verifier::spinoff_prover]
#[verifier::rlimit(40)]
pub proof fn lemma_moved_guard_keeps_accesses(
    dag: Seq<NodeView>,
    id: usize,
    holds: spec_fn(usize) -> bool,
)
    requires
        dag_wf(dag),
        id < dag.len(),
        move_guard(dag, id).dag.len() <= usize::MAX,
        (dag[id as int].op is Load || dag[id as int].op is Store) && is_guarded(
            dag,
            dag[id as int].srcs[0],
        ) ==> is_plain(dag, dag[dag[dag[id as int].srcs[0] as int].srcs[1] as int].srcs[1]),
    ensures
        ({
            let new = move_guard(dag, id);
            let node = dag[id as int];
            let own = new.dag[new.id as int];
            &&& node.op is Load && node.srcs.len() == 1 ==> own.op is Load && own.dtype == node.dtype
                && loaded(new.dag, new.id, holds) == loaded(dag, id, holds)
            &&& node.op is Store && node.srcs.len() == 2 ==> own.op is Store && own.dtype
                == node.dtype && written(new.dag, new.id, holds) == written(dag, id, holds)
            &&& node.op == Op::Ternary(TernaryOp::Where) && (new.dag != dag || new.id != id) ==> {
                let load = dag[node.srcs[1] as int];
                &&& own.op is Load
                &&& own.srcs.len() == 3
                &&& own.srcs[0] == load.srcs[0]
                &&& own.srcs[1] == node.srcs[2]
                &&& own.srcs[2] == node.srcs[0]
            }
        }),
{
    let node = dag[id as int];
    let new = move_guard(dag, id);
    lemma_arity(dag, id);
    if node.op is Load && node.srcs.len() == 1 && is_guarded(dag, node.srcs[0]) {
        let at = node.srcs[0];
        assert(dag[id as int].srcs[0] < id);
        assert(dag[at as int].srcs[1] < at);
        let guard = guard_of(dag, at);
        let bare = bare_address(dag, at);
        let address = put(dag, bare);
        let lanes = width(address.dag, address.id);
        let alt = zeros(address.dag, node.dtype, lanes);
        let want = with_srcs(node, seq![address.id, alt.id, guard]);
        lemma_interned_keeps(alt.dag, want);
        lemma_zeros_grow(address.dag, node.dtype, lanes);
        lemma_interned_keeps(dag, bare);
        lemma_put(dag, bare);
        lemma_zeros(address.dag, node.dtype, lanes);
        lemma_put(alt.dag, want);
        assert(new.dag[new.id as int] == want);
        assert(new.dag[address.id as int] == bare);
        lemma_where_is_valid(dag, dag[at as int].srcs[1]);
        lemma_bare(dag, new.dag, at, address.id, holds);
        lemma_zero_kept(alt.dag, new.dag, alt.id, node.dtype);
    } else if node.op is Store && node.srcs.len() == 2 && is_guarded(dag, node.srcs[0]) {
        let at = node.srcs[0];
        assert(dag[id as int].srcs[0] < id);
        assert(dag[at as int].srcs[1] < at);
        let bare = bare_address(dag, at);
        let address = put(dag, bare);
        let want = with_srcs(node, seq![address.id, node.srcs[1], guard_of(dag, at)]);
        lemma_interned_keeps(address.dag, want);
        lemma_put(dag, bare);
        lemma_put(address.dag, want);
        assert(new.dag[new.id as int] == want);
        assert(new.dag[address.id as int] == bare);
        lemma_where_is_valid(dag, dag[at as int].srcs[1]);
        lemma_bare(dag, new.dag, at, address.id, holds);
    } else if node.op == Op::Ternary(TernaryOp::Where) && dag[node.srcs[1] as int].op is Load
        && dag[node.srcs[1] as int].srcs.len() == 3 && dag[node.srcs[1] as int].srcs[2]
        == node.srcs[0] {
        let load = dag[node.srcs[1] as int];
        let want = with_srcs(load, load.srcs.update(1, node.srcs[2]));
        lemma_put(dag, want);
    }
}

proof fn lemma_where_is_valid(dag: Seq<NodeView>, id: usize)
    requires
        dag[id as int].op == Op::Ternary(TernaryOp::Where),
    ensures
        !all_invalid(dag, id),
{
}

proof fn lemma_zero_kept(
    dag: Seq<NodeView>,
    more: Seq<NodeView>,
    id: usize,
    dtype: DType,
)
    requires
        extends(dag, more),
        id < dag.len(),
        is_zero(dag, id, dtype),
        dag[id as int].op is Stack ==> forall|k: int|
            0 <= k < dag[id as int].srcs.len() ==> (#[trigger] dag[id as int].srcs[k]) < dag.len(),
    ensures
        is_zero(more, id, dtype),
{
    assert(more[id as int] == dag[id as int]);
    if dag[id as int].op is Stack {
        assert forall|k: int| 0 <= k < more[id as int].srcs.len() implies more[(
        #[trigger] more[id as int].srcs[k]) as int] == const_node(zero_of(dtype), dtype) by {
            assert(dag[id as int].srcs[k] < dag.len());
        }
    }
}

/// An access at an invalid address gives what it gives anyway: a load its
/// alternative or zero, and a store nothing.
pub proof fn lemma_invalid_access_is_folded(
    dag: Seq<NodeView>,
    id: usize,
    holds: spec_fn(usize) -> bool,
)
    requires
        dag_wf(dag),
        id < dag.len(),
        dag[dag[id as int].srcs[0] as int].op is Index,
        dag[dag[id as int].srcs[0] as int].srcs.len() > 1,
        all_invalid(dag, dag[dag[id as int].srcs[0] as int].srcs[1]),
        fold_invalid(dag, id).dag.len() <= usize::MAX,
    ensures
        ({
            let new = fold_invalid(dag, id);
            let node = dag[id as int];
            &&& node.op is Load && node.srcs.len() == 1 ==> is_zero(new.dag, new.id, node.dtype)
                && loaded(dag, id, holds) == Read::Zero
            &&& node.op is Load && node.srcs.len() == 3 ==> new.id == node.srcs[1] && (loaded(
                dag,
                id,
                holds,
            ) == Read::Else(new.id) || is_zero(dag, new.id, node.dtype))
            &&& node.op is Store && node.srcs.len() == 2 ==> new.dag[new.id as int].op is Noop
                && written(dag, id, holds) is None
        }),
{
    let node = dag[id as int];
    lemma_arity(dag, id);
    if node.op is Load && node.srcs.len() == 1 {
        lemma_zeros(dag, node.dtype, width(dag, id));
    } else if node.op is Store && node.srcs.len() == 2 {
        lemma_put(dag, NodeView { op: Op::Noop, dtype: DType::Void, srcs: Seq::empty() });
    }
}

/// Whether conditions hold as their parts do: one that is made of two holds where
/// one of the two does.
pub open spec fn holds_either(dag: Seq<NodeView>, holds: spec_fn(usize) -> bool) -> bool {
    forall|x: usize|
        x < dag.len() && (#[trigger] dag[x as int]).op == Op::Binary(BinaryOp::Or)
            && dag[x as int].dtype == DType::Bool ==> holds(x) == (holds(dag[x as int].srcs[0])
            || holds(dag[x as int].srcs[1]))
}

/// Whether a range is valid: it has no condition, or its condition holds.
pub open spec fn is_valid(dag: Seq<NodeView>, id: usize, holds: spec_fn(usize) -> bool) -> bool {
    condition_of(dag, id) matches Some(condition) ==> holds(condition)
}

proof fn lemma_disjunction(
    dag: Seq<NodeView>,
    more: Seq<NodeView>,
    list: Seq<usize>,
    n: nat,
    holds: spec_fn(usize) -> bool,
)
    requires
        0 < n <= list.len(),
        forall|i: int| 0 <= i < list.len() ==> condition_of(dag, #[trigger] list[i]) is Some,
        disjunction(dag, list, n).dag.len() <= usize::MAX,
        extends(disjunction(dag, list, n).dag, more),
        holds_either(more, holds),
    ensures
        extends(dag, disjunction(dag, list, n).dag),
        dag.len() <= disjunction(dag, list, n).dag.len(),
        holds(disjunction(dag, list, n).id) <==> exists|i: int|
            0 <= i < n && holds(condition_of(dag, #[trigger] list[i])->0),
    decreases n,
{
    if n > 1 {
        let rest = disjunction(dag, list, (n - 1) as nat);
        let new = disjunction(dag, list, n);
        let next = condition_of(dag, list[n - 1])->0;
        let want = NodeView {
            op: Op::Binary(BinaryOp::Or),
            dtype: DType::Bool,
            srcs: seq![rest.id, next],
        };
        lemma_interned_keeps(rest.dag, want);
        if next != rest.id {
            lemma_put(rest.dag, want);
            assert(more[new.id as int] == want);
        }
        lemma_disjunction(dag, more, list, (n - 1) as nat, holds);
        assert(holds(new.id) <==> holds(rest.id) || holds(next));
    } else {
        assert(condition_of(dag, list[0]) is Some);
    }
}

/// The range that the ranges of agreeing consumers merge into has their index, and
/// is valid exactly where one of them is.
pub proof fn lemma_merged_range_is_valid_where_one_is(
    dag: Seq<NodeView>,
    list: Seq<usize>,
    holds: spec_fn(usize) -> bool,
)
    requires
        dag_wf(dag),
        list.len() > 0,
        forall|i: int| 0 <= i < list.len() ==> (#[trigger] list[i]) < dag.len(),
        merged_range(dag, list).dag.len() <= usize::MAX,
        holds_either(merged_range(dag, list).dag, holds),
    ensures
        ({
            let new = merged_range(dag, list);
            let idx = idx_of(dag, list[0]);
            let own = new.dag[new.id as int];
            &&& new.id == idx || idx_of(new.dag, new.id) == idx && own.op == Op::Ternary(
                TernaryOp::Where,
            ) && own.dtype == dag[idx as int].dtype
            &&& (new.id == idx && new.dag == dag || holds(own.srcs[0])) <==> exists|i: int|
                0 <= i < list.len() && is_valid(dag, #[trigger] list[i], holds)
        }),
{
    let n = list.len();
    let new = merged_range(dag, list);
    let idx = idx_of(dag, list[0]);
    if some_always(dag, list, n) {
        let i = choose|i: int| 0 <= i < n && condition_of(dag, #[trigger] list[i]) is None;
        assert(is_valid(dag, list[i], holds));
    } else {
        assert forall|i: int| 0 <= i < n implies condition_of(dag, #[trigger] list[i]) is Some by {}
        let any = disjunction(dag, list, n);
        let first = const_node(ConstValue::Invalid, DType::WeakInt);
        let invalid = put(any.dag, first);
        let want = NodeView {
            op: Op::Ternary(TernaryOp::Where),
            dtype: dag[idx as int].dtype,
            srcs: seq![any.id, idx, invalid.id],
        };
        lemma_interned_keeps(invalid.dag, want);
        lemma_interned_keeps(any.dag, first);
        lemma_put(any.dag, first);
        lemma_put(invalid.dag, want);
        assert(new.dag[new.id as int] == want);
        assert(new.dag[invalid.id as int] == first);
        lemma_disjunction(dag, new.dag, list, n, holds);
        lemma_merged_is_new(dag, new.dag, list[0], new.id, idx);
        if holds(any.id) {
            let i = choose|i: int|
                0 <= i < n && holds(condition_of(dag, #[trigger] list[i])->0);
            assert(is_valid(dag, list[i], holds));
        }
        if exists|i: int| 0 <= i < n && is_valid(dag, #[trigger] list[i], holds) {
            let i = choose|i: int| 0 <= i < n && is_valid(dag, #[trigger] list[i], holds);
            assert(condition_of(dag, list[i]) is Some);
            assert(holds(condition_of(dag, list[i])->0));
        }
    }
}

proof fn lemma_merged_is_new(
    dag: Seq<NodeView>,
    more: Seq<NodeView>,
    range: usize,
    id: usize,
    idx: usize,
)
    requires
        dag_wf(dag),
        extends(dag, more),
        range < dag.len(),
        idx == idx_of(dag, range),
        more[id as int].op == Op::Ternary(TernaryOp::Where),
        more[id as int].srcs.len() == 3,
        more[id as int].srcs[1] == idx,
    ensures
        id != idx,
{
    lemma_arity(dag, range);
    if is_gated(dag, range) {
        assert(dag[range as int].srcs[1] < range);
    }
    if id == idx {
        assert(more[idx as int] == dag[idx as int]);
        assert(dag[idx as int].srcs[1] < idx);
    }
}

/// A truth value is read and written as a byte: a load of one is a load of a byte
/// at the same address and under the same condition, made a truth value again,
/// and its alternative is a byte; what is stored is made a byte first.
pub proof fn lemma_truth_is_stored_in_a_byte(dag: Seq<NodeView>, id: usize)
    requires
        dag_wf(dag),
        id < dag.len(),
        bool_storage(dag, id).dag.len() <= usize::MAX,
    ensures
        ({
            let new = bool_storage(dag, id);
            let node = dag[id as int];
            let own = new.dag[new.id as int];
            &&& node.op is Load && node.dtype == DType::Bool ==> {
                let load = new.dag[own.srcs[0] as int];
                &&& own.op is Cast
                &&& own.dtype == DType::Bool
                &&& load.op is Load
                &&& load.dtype == DType::UInt8
                &&& load.srcs.len() == node.srcs.len()
                &&& load.srcs[0] == node.srcs[0]
                &&& node.srcs.len() == 3 ==> load.srcs[2] == node.srcs[2]
                    && new.dag[load.srcs[1] as int] == cast_node(node.srcs[1], DType::UInt8)
            }
            &&& node.op is Store && dag[node.srcs[1] as int].dtype == DType::Bool && !is_invalid(
                dag,
                node.srcs[1],
            ) ==> {
                &&& own.op is Store
                &&& own.dtype == node.dtype
                &&& own.srcs.len() == node.srcs.len()
                &&& own.srcs[0] == node.srcs[0]
                &&& new.dag[own.srcs[1] as int] == cast_node(node.srcs[1], DType::UInt8)
                &&& node.srcs.len() == 3 ==> own.srcs[2] == node.srcs[2]
            }
        }),
{
    let node = dag[id as int];
    let new = bool_storage(dag, id);
    lemma_arity(dag, id);
    if node.op is Load && node.dtype == DType::Bool {
        if node.srcs.len() == 3 {
            let first = cast_node(node.srcs[1], DType::UInt8);
            let alt = put(dag, first);
            let second = NodeView {
                op: Op::Load,
                dtype: DType::UInt8,
                srcs: seq![node.srcs[0], alt.id, node.srcs[2]],
            };
            let load = put(alt.dag, second);
            let last = cast_node(load.id, DType::Bool);
            lemma_interned_keeps(load.dag, last);
            lemma_interned_keeps(alt.dag, second);
            lemma_put(dag, first);
            lemma_put(alt.dag, second);
            lemma_put(load.dag, last);
            assert(new.dag[new.id as int] == last);
            assert(new.dag[load.id as int] == second);
            assert(new.dag[alt.id as int] == first);
        } else {
            let second = NodeView { op: Op::Load, dtype: DType::UInt8, srcs: node.srcs };
            let load = put(dag, second);
            let last = cast_node(load.id, DType::Bool);
            lemma_interned_keeps(load.dag, last);
            lemma_put(dag, second);
            lemma_put(load.dag, last);
            assert(new.dag[new.id as int] == last);
            assert(new.dag[load.id as int] == second);
        }
    } else if node.op is Store && dag[node.srcs[1] as int].dtype == DType::Bool && !is_invalid(
        dag,
        node.srcs[1],
    ) {
        let first = cast_node(node.srcs[1], DType::UInt8);
        let value = put(dag, first);
        let last = with_srcs(node, node.srcs.update(1, value.id));
        lemma_interned_keeps(value.dag, last);
        lemma_put(dag, first);
        lemma_put(value.dag, last);
        assert(new.dag[new.id as int] == last);
        assert(new.dag[value.id as int] == first);
    }
}

} // verus!
