//! Numbers of 64 bits as expressions on two words of 32 bits each.

use vstd::arithmetic::mul::{
    lemma_mul_is_distributive_add, lemma_mul_is_distributive_add_other_way,
};
use vstd::prelude::*;

use crate::builders::{cast_node, const_node, lemma_interned_keeps};
use crate::dce::{put_where, where_node};
use crate::fold::{
    binary_number, is_signed, modulus, number_of, truncated_mod, word, word_count,
};
use crate::graph::{
    dag_wf, BinaryOp, ConstValue, DType, Graph, NodeView, Op, TernaryOp,
};
use crate::late::{pair_node, put_pair};
use crate::meaning::lemma_arity;
use crate::passes::{extends, grown, lemma_put};
use crate::short::{is_long, is_short, lemma_short_kept, lemma_short_node};
use crate::words::{half_count, lemma_bits_by_word};

verus! {

/// What a type makes of a number: integers wrap around, and as a boolean every
/// number but zero is one. A type without a size keeps it.
pub open spec fn wrapped(n: int, dtype: DType) -> int {
    if dtype == DType::Bool {
        if n != 0 {
            1
        } else {
            0
        }
    } else {
        match modulus(dtype) {
            Some(m) => if is_signed(dtype) && n % m >= m / 2 {
                n % m - m
            } else {
                n % m
            },
            None => n,
        }
    }
}

/// An operation on two numbers in a type.
pub open spec fn joined(op: BinaryOp, a: Option<int>, b: Option<int>, dtype: DType) -> Option<int> {
    match (a, b) {
        (Some(x), Some(y)) => match binary_number(op, x, y) {
            Some(n) => Some(wrapped(n, dtype)),
            None => None,
        },
        _ => None,
    }
}

/// The number that a node is, given the numbers of its sources.
pub open spec fn amount_from(
    node: NodeView,
    own: int,
    of: spec_fn(usize) -> Option<int>,
) -> Option<int> {
    match node.op {
        Op::Const(value) => match number_of(value) {
            Some(n) => Some(wrapped(n, node.dtype)),
            None => None,
        },
        Op::Cast => match of(node.srcs[0]) {
            Some(n) => Some(wrapped(n, node.dtype)),
            None => None,
        },
        Op::Binary(op) => joined(op, of(node.srcs[0]), of(node.srcs[1]), node.dtype),
        Op::Ternary(TernaryOp::Where) => match of(node.srcs[0]) {
            Some(c) => if c != 0 {
                of(node.srcs[1])
            } else {
                of(node.srcs[2])
            },
            None => None,
        },
        _ => Some(wrapped(own, node.dtype)),
    }
}

/// The number that a node is, given the numbers of the nodes that no arithmetic
/// computes.
#[verifier::opaque]
pub open spec fn amount(dag: Seq<NodeView>, id: usize, at: spec_fn(usize) -> int) -> Option<int>
    decreases id,
{
    amount_from(
        dag[id as int],
        at(id),
        |src: usize|
            if src < id {
                amount(dag, src, at)
            } else {
                None
            },
    )
}

proof fn lemma_amount(dag: Seq<NodeView>, id: usize, at: spec_fn(usize) -> int)
    requires
        dag_wf(dag),
        id < dag.len(),
    ensures
        amount(dag, id, at) == amount_from(
            dag[id as int],
            at(id),
            |src: usize| amount(dag, src, at),
        ),
{
    reveal(amount);
    let node = dag[id as int];
    lemma_arity(dag, id);
    if node.srcs.len() > 0 {
        assert(dag[id as int].srcs[0] < id);
    }
    if node.srcs.len() > 1 {
        assert(dag[id as int].srcs[1] < id);
    }
    if node.srcs.len() > 2 {
        assert(dag[id as int].srcs[2] < id);
    }
}

/// A graph that grows keeps the numbers of its nodes.
pub proof fn lemma_amount_extends(
    dag: Seq<NodeView>,
    more: Seq<NodeView>,
    id: usize,
    at: spec_fn(usize) -> int,
)
    requires
        dag_wf(dag),
        extends(dag, more),
        id < dag.len(),
    ensures
        amount(more, id, at) == amount(dag, id, at),
    decreases id,
{
    reveal(amount);
    let node = dag[id as int];
    assert(more[id as int] == node);
    lemma_arity(dag, id);
    if node.srcs.len() > 0 {
        assert(dag[id as int].srcs[0] < id);
        lemma_amount_extends(dag, more, node.srcs[0], at);
    }
    if node.srcs.len() > 1 {
        assert(dag[id as int].srcs[1] < id);
        lemma_amount_extends(dag, more, node.srcs[1], at);
    }
    if node.srcs.len() > 2 {
        assert(dag[id as int].srcs[2] < id);
        lemma_amount_extends(dag, more, node.srcs[2], at);
    }
}

/// Whether a graph has grown, so that all earlier nodes keep their numbers and
/// what they are computed without.
pub open spec fn keeps_amounts(before: Seq<NodeView>, after: Seq<NodeView>) -> bool {
    &&& extends(before, after)
    &&& forall|x: usize, at: spec_fn(usize) -> int|
        x < before.len() ==> #[trigger] amount(after, x, at) == amount(before, x, at)
    &&& forall|x: usize| x < before.len() && is_short(before, x) ==> #[trigger] is_short(after, x)
}

pub(crate) proof fn lemma_keeps(before: Seq<NodeView>, after: Seq<NodeView>)
    requires
        dag_wf(before),
        extends(before, after),
    ensures
        keeps_amounts(before, after),
{
    assert forall|x: usize, at: spec_fn(usize) -> int| x < before.len() implies #[trigger] amount(
        after,
        x,
        at,
    ) == amount(before, x, at) by {
        lemma_amount_extends(before, after, x, at);
    }
    assert forall|x: usize| x < before.len() && is_short(before, x) implies #[trigger] is_short(
        after,
        x,
    ) by {
        lemma_short_kept(before, after, x);
    }
}

/// An operation on two nodes.
pub(crate) fn put_op(graph: &mut Graph, op: BinaryOp, dtype: DType, a: usize, b: usize) -> (id: usize)
    requires
        old(graph).wf(),
        a < old(graph)@.len(),
        is_short(old(graph)@, a),
        b < old(graph)@.len(),
        is_short(old(graph)@, b),
        !is_long(dtype),
    ensures
        final(graph).wf(),
        id < final(graph)@.len(),
        is_short(final(graph)@, id),
        final(graph)@[id as int].dtype == dtype,
        keeps_amounts(old(graph)@, final(graph)@),
        forall|at: spec_fn(usize) -> int| #[trigger]
            amount(final(graph)@, id, at) == joined(
                op,
                amount(old(graph)@, a, at),
                amount(old(graph)@, b, at),
                dtype,
            ),
{
    let ghost dag = graph@;
    let id: usize = put_pair(graph, op, dtype, a, b);
    proof {
        let node = pair_node(op, dtype, a, b);
        lemma_put(dag, node);
        lemma_keeps(dag, graph@);
        assert(graph@[id as int] == node);
        lemma_short_node(graph@, id);
        assert forall|at: spec_fn(usize) -> int| #[trigger]
            amount(graph@, id, at) == joined(op, amount(dag, a, at), amount(dag, b, at), dtype) by {
            lemma_amount(graph@, id, at);
            assert(amount(graph@, a, at) == amount(dag, a, at));
            assert(amount(graph@, b, at) == amount(dag, b, at));
        }
    }
    id
}

/// A constant of a type.
pub(crate) fn put_number(graph: &mut Graph, n: u32, dtype: DType) -> (id: usize)
    requires
        old(graph).wf(),
        !is_long(dtype),
    ensures
        final(graph).wf(),
        id < final(graph)@.len(),
        is_short(final(graph)@, id),
        final(graph)@[id as int].dtype == dtype,
        keeps_amounts(old(graph)@, final(graph)@),
        forall|at: spec_fn(usize) -> int| #[trigger]
            amount(final(graph)@, id, at) == Some(wrapped(n as int, dtype)),
{
    let ghost dag = graph@;
    let id: usize = graph.constant(ConstValue::UInt(n as u64), dtype);
    proof {
        let node = const_node(ConstValue::UInt(n as u64), dtype);
        lemma_interned_keeps(dag, node);
        lemma_put(dag, node);
        lemma_keeps(dag, graph@);
        assert(graph@[id as int] == node);
        lemma_short_node(graph@, id);
        assert forall|at: spec_fn(usize) -> int| #[trigger]
            amount(graph@, id, at) == Some(wrapped(n as int, dtype)) by {
            lemma_amount(graph@, id, at);
        }
    }
    id
}

/// A node converted to a type.
pub(crate) fn put_cast(graph: &mut Graph, a: usize, dtype: DType) -> (id: usize)
    requires
        old(graph).wf(),
        a < old(graph)@.len(),
        is_short(old(graph)@, a),
        !is_long(dtype),
    ensures
        final(graph).wf(),
        id < final(graph)@.len(),
        is_short(final(graph)@, id),
        final(graph)@[id as int].dtype == dtype,
        keeps_amounts(old(graph)@, final(graph)@),
        forall|at: spec_fn(usize) -> int| #[trigger]
            amount(final(graph)@, id, at) == (match amount(old(graph)@, a, at) {
                Some(n) => Some(wrapped(n, dtype)),
                None => None,
            }),
{
    let ghost dag = graph@;
    let id: usize = graph.cast(a, dtype);
    proof {
        let node = cast_node(a, dtype);
        lemma_interned_keeps(dag, node);
        lemma_put(dag, node);
        lemma_keeps(dag, graph@);
        assert(graph@[id as int] == node);
        lemma_short_node(graph@, id);
        assert forall|at: spec_fn(usize) -> int| #[trigger]
            amount(graph@, id, at) == (match amount(dag, a, at) {
                Some(n) => Some(wrapped(n, dtype)),
                None => None,
            }) by {
            lemma_amount(graph@, id, at);
            assert(amount(graph@, a, at) == amount(dag, a, at));
        }
    }
    id
}

/// One of two nodes, by a condition: a boolean, or whether a number is not zero.
pub(crate) fn put_choice(graph: &mut Graph, dtype: DType, c: usize, a: usize, b: usize) -> (id: usize)
    requires
        old(graph).wf(),
        c < old(graph)@.len(),
        is_short(old(graph)@, c),
        a < old(graph)@.len(),
        is_short(old(graph)@, a),
        b < old(graph)@.len(),
        is_short(old(graph)@, b),
        !is_long(dtype),
    ensures
        final(graph).wf(),
        id < final(graph)@.len(),
        is_short(final(graph)@, id),
        final(graph)@[id as int].dtype == dtype,
        keeps_amounts(old(graph)@, final(graph)@),
        forall|at: spec_fn(usize) -> int| #[trigger]
            amount(final(graph)@, id, at) == (match amount(old(graph)@, c, at) {
                Some(n) => if n != 0 {
                    amount(old(graph)@, a, at)
                } else {
                    amount(old(graph)@, b, at)
                },
                None => None,
            }),
{
    let ghost dag = graph@;
    let test: usize = if graph.dtype(c) == DType::Bool {
        c
    } else {
        put_cast(graph, c, DType::Bool)
    };
    let ghost mid = graph@;
    let id: usize = put_where(graph, dtype, test, a, b);
    proof {
        let node = where_node(dtype, test, a, b);
        lemma_put(mid, node);
        lemma_keeps(mid, graph@);
        assert(extends(dag, graph@));
        assert(graph@[id as int] == node);
        lemma_short_node(graph@, id);
        assert forall|at: spec_fn(usize) -> int| #[trigger]
            amount(graph@, id, at) == (match amount(dag, c, at) {
                Some(n) => if n != 0 {
                    amount(dag, a, at)
                } else {
                    amount(dag, b, at)
                },
                None => None,
            }) by {
            lemma_amount(graph@, id, at);
            assert(amount(graph@, test, at) == amount(mid, test, at));
            assert(amount(mid, a, at) == amount(dag, a, at));
            assert(amount(mid, b, at) == amount(dag, b, at));
            assert(amount(graph@, a, at) == amount(mid, a, at));
            assert(amount(graph@, b, at) == amount(mid, b, at));
        }
    }
    id
}

/// The nodes of the two words of a number.
#[derive(Clone, Copy, Debug, PartialEq, Eq, Structural)]
pub struct Halves {
    pub low: usize,
    pub high: usize,
}

impl Halves {
    /// Whether both words stand in a graph, as words without a sign that are
    /// computed without 64-bit integers.
    pub open spec fn stands(self, dag: Seq<NodeView>) -> bool {
        &&& self.low < dag.len()
        &&& self.high < dag.len()
        &&& dag[self.low as int].dtype == DType::UInt32
        &&& dag[self.high as int].dtype == DType::UInt32
        &&& is_short(dag, self.low)
        &&& is_short(dag, self.high)
    }
}

/// Whether a number is one of a word.
pub open spec fn is_word(n: int) -> bool {
    0 <= n < half_count()
}

/// The number whose words two nodes are.
pub open spec fn both(dag: Seq<NodeView>, h: Halves, at: spec_fn(usize) -> int) -> Option<int> {
    match (amount(dag, h.low, at), amount(dag, h.high, at)) {
        (Some(low), Some(high)) => if is_word(low) && is_word(high) {
            Some(high * half_count() + low)
        } else {
            None
        },
        _ => None,
    }
}

/// The number with a sign, or without one, whose bits these are.
pub open spec fn signed_number(dtype: DType, bits: int) -> int {
    if dtype == DType::Int64 && bits >= 0x8000_0000_0000_0000 {
        bits - word_count()
    } else {
        bits
    }
}

/// Whether two words are what an operation at full width makes of two others.
pub open spec fn computes(
    before: Seq<NodeView>,
    after: Seq<NodeView>,
    op: BinaryOp,
    dtype: DType,
    a: Halves,
    b: Halves,
    h: Halves,
) -> bool {
    forall|at: spec_fn(usize) -> int|
        #![trigger both(after, h, at)]
        match (both(before, a, at), both(before, b, at)) {
            (Some(x), Some(y)) => match binary_number(
                op,
                signed_number(dtype, x),
                signed_number(dtype, y),
            ) {
                Some(n) => both(after, h, at) == Some(n % word_count()),
                None => true,
            },
            _ => true,
        }
}

proof fn lemma_sum(al: int, ah: int, bl: int, bh: int)
    requires
        is_word(al),
        is_word(ah),
        is_word(bl),
        is_word(bh),
    ensures
        ({
            let m = half_count();
            let low = (al + bl) % m;
            let carry: int = if low < al {
                1
            } else {
                0
            };
            let high = ((ah + bh) % m + carry) % m;
            high * m + low == (ah * m + al + (bh * m + bl)) % word_count()
        }),
{
    let m = half_count();
    let low = (al + bl) % m;
    let carry: int = if low < al {
        1
    } else {
        0
    };
    let high = ((ah + bh) % m + carry) % m;
    assert(al + bl == low + carry * m);
    assert(high == (ah + bh + carry) % m);
    let k = (ah + bh + carry) / m;
    assert(ah + bh + carry == k * m + high);
    assert(ah * m + al + (bh * m + bl) == k * word_count() + (high * m + low));
}

proof fn lemma_difference(al: int, ah: int, bl: int, bh: int)
    requires
        is_word(al),
        is_word(ah),
        is_word(bl),
        is_word(bh),
    ensures
        ({
            let m = half_count();
            let low = (al - bl) % m;
            let borrow: int = if al < bl {
                1
            } else {
                0
            };
            let high = ((ah - bh) % m - borrow) % m;
            high * m + low == (ah * m + al - (bh * m + bl)) % word_count()
        }),
{
    let m = half_count();
    let low = (al - bl) % m;
    let borrow: int = if al < bl {
        1
    } else {
        0
    };
    let high = ((ah - bh) % m - borrow) % m;
    assert(al - bl == low - borrow * m);
    assert(high == (ah - bh - borrow) % m);
    let k = (ah - bh - borrow) / m;
    assert(ah - bh - borrow == k * m + high);
    assert(ah * m + al - (bh * m + bl) == k * word_count() + (high * m + low));
}

/// Two numbers and what a function makes of them.
pub open spec fn of_both(
    a: Option<int>,
    b: Option<int>,
    f: spec_fn(int, int) -> int,
) -> Option<int> {
    match (a, b) {
        (Some(x), Some(y)) => Some(f(x, y)),
        _ => None,
    }
}

/// Whether a node is what a function makes of two others.
pub open spec fn is_made(
    before: Seq<NodeView>,
    after: Seq<NodeView>,
    a: usize,
    b: usize,
    id: usize,
    f: spec_fn(int, int) -> int,
) -> bool {
    forall|at: spec_fn(usize) -> int| #[trigger]
        amount(after, id, at) == of_both(amount(before, a, at), amount(before, b, at), f)
}

pub open spec fn added() -> spec_fn(int, int) -> int {
    |x: int, y: int| (x + y) % half_count()
}

pub open spec fn subtracted() -> spec_fn(int, int) -> int {
    |x: int, y: int| (x - y) % half_count()
}

pub open spec fn multiplied() -> spec_fn(int, int) -> int {
    |x: int, y: int| (x * y) % half_count()
}

pub open spec fn compared() -> spec_fn(int, int) -> int {
    |x: int, y: int|
        if x < y {
            1int
        } else {
            0int
        }
}

/// An operation on two nodes, as a word.
pub(crate) fn put_word(
    graph: &mut Graph,
    op: BinaryOp,
    a: usize,
    b: usize,
    Ghost(f): Ghost<spec_fn(int, int) -> int>,
) -> (id: usize)
    requires
        old(graph).wf(),
        a < old(graph)@.len(),
        is_short(old(graph)@, a),
        b < old(graph)@.len(),
        is_short(old(graph)@, b),
        op == BinaryOp::Add && f == added() || op == BinaryOp::Sub && f == subtracted() || op
            == BinaryOp::Mul && f == multiplied(),
    ensures
        final(graph).wf(),
        id < final(graph)@.len(),
        is_short(final(graph)@, id),
        final(graph)@[id as int].dtype == DType::UInt32,
        keeps_amounts(old(graph)@, final(graph)@),
        is_made(old(graph)@, final(graph)@, a, b, id, f),
{
    put_op(graph, op, DType::UInt32, a, b)
}

/// Whether the number of one node is below that of another, as a word.
pub(crate) fn put_less(graph: &mut Graph, a: usize, b: usize) -> (id: usize)
    requires
        old(graph).wf(),
        a < old(graph)@.len(),
        is_short(old(graph)@, a),
        b < old(graph)@.len(),
        is_short(old(graph)@, b),
    ensures
        final(graph).wf(),
        id < final(graph)@.len(),
        is_short(final(graph)@, id),
        final(graph)@[id as int].dtype == DType::UInt32,
        keeps_amounts(old(graph)@, final(graph)@),
        is_made(old(graph)@, final(graph)@, a, b, id, compared()),
{
    let ghost dag = graph@;
    let less: usize = put_op(graph, BinaryOp::Lt, DType::Bool, a, b);
    let ghost mid = graph@;
    let id: usize = put_cast(graph, less, DType::UInt32);
    proof {
        assert forall|at: spec_fn(usize) -> int| #[trigger]
            amount(graph@, id, at) == of_both(
                amount(dag, a, at),
                amount(dag, b, at),
                compared(),
            ) by {
            assert(amount(mid, less, at) == joined(
                BinaryOp::Lt,
                amount(dag, a, at),
                amount(dag, b, at),
                DType::Bool,
            ));
        }
        assert(extends(dag, graph@));
    }
    id
}

/// Whether two words are what a function makes of two numbers.
pub open spec fn makes(
    before: Seq<NodeView>,
    after: Seq<NodeView>,
    a: Halves,
    b: Halves,
    h: Halves,
    f: spec_fn(int, int) -> int,
) -> bool {
    forall|at: spec_fn(usize) -> int|
        #![trigger both(after, h, at)]
        both(before, a, at) is Some && both(before, b, at) is Some ==> both(after, h, at) == Some(
            f(both(before, a, at)->0, both(before, b, at)->0) % word_count(),
        )
}

/// The sum of two numbers: the low word carries into the high one.
pub(crate) fn put_sum(graph: &mut Graph, a: Halves, b: Halves) -> (h: Halves)
    requires
        old(graph).wf(),
        a.stands(old(graph)@),
        b.stands(old(graph)@),
    ensures
        final(graph).wf(),
        keeps_amounts(old(graph)@, final(graph)@),
        h.stands(final(graph)@),
        makes(old(graph)@, final(graph)@, a, b, h, |x: int, y: int| x + y),
{
    let ghost dag = graph@;
    let low: usize = put_word(graph, BinaryOp::Add, a.low, b.low, Ghost(added()));
    let carry: usize = put_less(graph, low, a.low);
    let plain: usize = put_word(graph, BinaryOp::Add, a.high, b.high, Ghost(added()));
    let high: usize = put_word(graph, BinaryOp::Add, plain, carry, Ghost(added()));
    let h = Halves { low, high };
    proof {
        assert forall|at: spec_fn(usize) -> int|
            #![trigger both(graph@, h, at)]
            both(dag, a, at) is Some && both(dag, b, at) is Some implies both(graph@, h, at)
            == Some((both(dag, a, at)->0 + both(dag, b, at)->0) % word_count()) by {
            let (al, ah) = (amount(dag, a.low, at)->0, amount(dag, a.high, at)->0);
            let (bl, bh) = (amount(dag, b.low, at)->0, amount(dag, b.high, at)->0);
            lemma_sum(al, ah, bl, bh);
            assert(amount(graph@, low, at) == Some((al + bl) % half_count()));
            assert(amount(graph@, high, at) is Some);
        }
    }
    h
}

/// The difference of two numbers: the low word borrows from the high one.
pub(crate) fn put_difference(graph: &mut Graph, a: Halves, b: Halves) -> (h: Halves)
    requires
        old(graph).wf(),
        a.stands(old(graph)@),
        b.stands(old(graph)@),
    ensures
        final(graph).wf(),
        keeps_amounts(old(graph)@, final(graph)@),
        h.stands(final(graph)@),
        makes(old(graph)@, final(graph)@, a, b, h, |x: int, y: int| x - y),
{
    let ghost dag = graph@;
    let low: usize = put_word(graph, BinaryOp::Sub, a.low, b.low, Ghost(subtracted()));
    let borrow: usize = put_less(graph, a.low, b.low);
    let plain: usize = put_word(graph, BinaryOp::Sub, a.high, b.high, Ghost(subtracted()));
    let high: usize = put_word(graph, BinaryOp::Sub, plain, borrow, Ghost(subtracted()));
    let h = Halves { low, high };
    proof {
        assert forall|at: spec_fn(usize) -> int|
            #![trigger both(graph@, h, at)]
            both(dag, a, at) is Some && both(dag, b, at) is Some implies both(graph@, h, at)
            == Some((both(dag, a, at)->0 - both(dag, b, at)->0) % word_count()) by {
            let (al, ah) = (amount(dag, a.low, at)->0, amount(dag, a.high, at)->0);
            let (bl, bh) = (amount(dag, b.low, at)->0, amount(dag, b.high, at)->0);
            lemma_difference(al, ah, bl, bh);
            assert(amount(graph@, low, at) == Some((al - bl) % half_count()));
            assert(amount(graph@, high, at) is Some);
        }
    }
    h
}

/// The bits of two numbers together.
pub open spec fn bits_of(op: BinaryOp, x: int, y: int) -> int {
    match op {
        BinaryOp::And => (word(x) & word(y)) as int,
        BinaryOp::Or => (word(x) | word(y)) as int,
        _ => (word(x) ^ word(y)) as int,
    }
}

/// The operations that go bit by bit.
pub open spec fn is_bitwise(op: BinaryOp) -> bool {
    op == BinaryOp::And || op == BinaryOp::Or || op == BinaryOp::Xor
}

proof fn lemma_bitwise(op: BinaryOp, al: int, ah: int, bl: int, bh: int)
    requires
        is_bitwise(op),
        is_word(al),
        is_word(ah),
        is_word(bl),
        is_word(bh),
    ensures
        is_word(bits_of(op, al, bl)),
        is_word(bits_of(op, ah, bh)),
        bits_of(op, ah * half_count() + al, bh * half_count() + bl) == bits_of(op, ah, bh)
            * half_count() + bits_of(op, al, bl),
{
    let m = half_count();
    let (x, y) = (ah * m + al, bh * m + bl);
    assert(word(x) == x && word(y) == y);
    assert(word(al) == al && word(ah) == ah && word(bl) == bl && word(bh) == bh);
    lemma_bits_by_word(x as u64, y as u64, al as u32, ah as u32, bl as u32, bh as u32);
}

/// Two words of an operation that goes bit by bit.
pub(crate) fn put_bitwise(graph: &mut Graph, op: BinaryOp, a: Halves, b: Halves) -> (h: Halves)
    requires
        old(graph).wf(),
        is_bitwise(op),
        a.stands(old(graph)@),
        b.stands(old(graph)@),
    ensures
        final(graph).wf(),
        keeps_amounts(old(graph)@, final(graph)@),
        h.stands(final(graph)@),
        makes(old(graph)@, final(graph)@, a, b, h, |x: int, y: int| bits_of(op, x, y)),
{
    let ghost dag = graph@;
    let low: usize = put_op(graph, op, DType::UInt32, a.low, b.low);
    let high: usize = put_op(graph, op, DType::UInt32, a.high, b.high);
    let h = Halves { low, high };
    proof {
        assert forall|at: spec_fn(usize) -> int|
            #![trigger both(graph@, h, at)]
            both(dag, a, at) is Some && both(dag, b, at) is Some implies both(graph@, h, at)
            == Some(bits_of(op, both(dag, a, at)->0, both(dag, b, at)->0) % word_count()) by {
            let (al, ah) = (amount(dag, a.low, at)->0, amount(dag, a.high, at)->0);
            let (bl, bh) = (amount(dag, b.low, at)->0, amount(dag, b.high, at)->0);
            lemma_bitwise(op, al, ah, bl, bh);
            assert(amount(graph@, low, at) == Some(bits_of(op, al, bl)));
            assert(amount(graph@, high, at) == Some(bits_of(op, ah, bh)));
        }
    }
    h
}

/// Whether a node is what a function makes of the word that another is.
pub open spec fn is_part(
    before: Seq<NodeView>,
    after: Seq<NodeView>,
    a: usize,
    id: usize,
    f: spec_fn(int) -> int,
) -> bool {
    forall|at: spec_fn(usize) -> int|
        #![trigger amount(after, id, at)]
        amount(before, a, at) is Some && is_word(amount(before, a, at)->0) ==> amount(after, id, at)
            == Some(f(amount(before, a, at)->0))
}

/// A word divided by a constant.
pub(crate) fn put_quotient(graph: &mut Graph, a: usize, n: u32) -> (id: usize)
    requires
        old(graph).wf(),
        a < old(graph)@.len(),
        is_short(old(graph)@, a),
        n > 0,
    ensures
        final(graph).wf(),
        id < final(graph)@.len(),
        is_short(final(graph)@, id),
        final(graph)@[id as int].dtype == DType::UInt32,
        keeps_amounts(old(graph)@, final(graph)@),
        is_part(old(graph)@, final(graph)@, a, id, |x: int| x / (n as int)),
{
    let ghost dag = graph@;
    let c: usize = put_number(graph, n, DType::UInt32);
    let ghost mid = graph@;
    let id: usize = put_op(graph, BinaryOp::CDiv, DType::UInt32, a, c);
    proof {
        assert forall|at: spec_fn(usize) -> int|
            #![trigger amount(graph@, id, at)]
            amount(dag, a, at) is Some && is_word(amount(dag, a, at)->0) implies amount(
            graph@,
            id,
            at,
        ) == Some(amount(dag, a, at)->0 / (n as int)) by {
            let x = amount(dag, a, at)->0;
            assert(amount(mid, a, at) == Some(x));
            assert(amount(mid, c, at) == Some(n as int));
            assert(0 <= x / (n as int) <= x) by (nonlinear_arith)
                requires
                    x >= 0,
                    n >= 1,
            ;
        }
    }
    id
}

/// What is left of a word divided by a constant.
pub(crate) fn put_rest(graph: &mut Graph, a: usize, n: u32) -> (id: usize)
    requires
        old(graph).wf(),
        a < old(graph)@.len(),
        is_short(old(graph)@, a),
        n > 0,
    ensures
        final(graph).wf(),
        id < final(graph)@.len(),
        is_short(final(graph)@, id),
        final(graph)@[id as int].dtype == DType::UInt32,
        keeps_amounts(old(graph)@, final(graph)@),
        is_part(old(graph)@, final(graph)@, a, id, |x: int| x % (n as int)),
{
    let ghost dag = graph@;
    let c: usize = put_number(graph, n, DType::UInt32);
    let ghost mid = graph@;
    let id: usize = put_op(graph, BinaryOp::CMod, DType::UInt32, a, c);
    proof {
        assert forall|at: spec_fn(usize) -> int|
            #![trigger amount(graph@, id, at)]
            amount(dag, a, at) is Some && is_word(amount(dag, a, at)->0) implies amount(
            graph@,
            id,
            at,
        ) == Some(amount(dag, a, at)->0 % (n as int)) by {
            let x = amount(dag, a, at)->0;
            assert(amount(mid, a, at) == Some(x));
            assert(amount(mid, c, at) == Some(n as int));
            assert(x == n * (x / (n as int)) + x % (n as int) && 0 <= x % (n as int) < n)
                by (nonlinear_arith)
                requires
                    n >= 1,
            ;
            assert(truncated_mod(x, n as int) == x % (n as int));
        }
    }
    id
}

spec fn upper(x: int, y: int) -> int {
    let (x0, x1) = (x % 0x1_0000, x / 0x1_0000);
    let (y0, y1) = (y % 0x1_0000, y / 0x1_0000);
    let middle = x0 * y0 / 0x1_0000 + x0 * y1 % 0x1_0000 + x1 * y0 % 0x1_0000;
    x1 * y1 + x0 * y1 / 0x1_0000 + x1 * y0 / 0x1_0000 + middle / 0x1_0000
}

proof fn lemma_bounded_product(x: int, y: int, m: int)
    requires
        0 <= x <= m,
        0 <= y <= m,
    ensures
        0 <= x * y <= m * m,
{
    assert(0 <= x * y <= m * m) by (nonlinear_arith)
        requires
            0 <= x <= m,
            0 <= y <= m,
    ;
}

/// A number from the products of halves: what is above its lower word, and the
/// lower word.
proof fn lemma_digits(a: int, b: int, c: int, d: int)
    requires
        0 <= a,
        0 <= b,
        0 <= c,
    ensures
        ({
            let middle = a / 0x1_0000 + b % 0x1_0000 + c % 0x1_0000;
            let low = middle % 0x1_0000 * 0x1_0000 + a % 0x1_0000;
            &&& 0 <= low < half_count()
            &&& d * 0x1_0000_0000 + (b + c) * 0x1_0000 + a == (d + b / 0x1_0000 + c / 0x1_0000
                + middle / 0x1_0000) * half_count() + low
        }),
{
    let (a1, a0) = (a / 0x1_0000, a % 0x1_0000);
    let (b1, b0) = (b / 0x1_0000, b % 0x1_0000);
    let (c1, c0) = (c / 0x1_0000, c % 0x1_0000);
    assert(a == a1 * 0x1_0000 + a0);
    assert(b == b1 * 0x1_0000 + b0);
    assert(c == c1 * 0x1_0000 + c0);
    let middle = a1 + b0 + c0;
    let (m1, m0) = (middle / 0x1_0000, middle % 0x1_0000);
    assert(middle == m1 * 0x1_0000 + m0);
}

#[verifier::spinoff_prover]
proof fn lemma_upper(x: int, y: int)
    requires
        is_word(x),
        is_word(y),
    ensures
        x * y == upper(x, y) * half_count() + (x * y) % half_count(),
        is_word(upper(x, y)),
{
    let (x0, x1) = (x % 0x1_0000, x / 0x1_0000);
    let (y0, y1) = (y % 0x1_0000, y / 0x1_0000);
    lemma_bounded_product(x0, y0, 0xffff);
    lemma_bounded_product(x0, y1, 0xffff);
    lemma_bounded_product(x1, y0, 0xffff);
    lemma_bounded_product(x, y, 0xffff_ffff);
    assert(x == x1 * 0x1_0000 + x0);
    assert(y == y1 * 0x1_0000 + y0);
    lemma_expand(x1, x0, y1, y0, 0x1_0000);
    let (a, b, c, d) = (x0 * y0, x0 * y1, x1 * y0, x1 * y1);
    assert(x * y == d * 0x1_0000_0000 + (b + c) * 0x1_0000 + a);
    lemma_digits(a, b, c, d);
    let middle = a / 0x1_0000 + b % 0x1_0000 + c % 0x1_0000;
    let low = middle % 0x1_0000 * 0x1_0000 + a % 0x1_0000;
    let top = upper(x, y);
    assert(top == d + b / 0x1_0000 + c / 0x1_0000 + middle / 0x1_0000);
    lemma_quotient_of(x * y, top, low);
}

proof fn lemma_quotient_of(n: int, top: int, low: int)
    requires
        n == top * half_count() + low,
        0 <= low < half_count(),
        0 <= n <= 0xffff_ffff * 0xffff_ffff,
    ensures
        n % half_count() == low,
        is_word(top),
{
}

/// The upper word of a product of two words, from the products of their halves.
#[verifier::rlimit(40)]
#[verifier::spinoff_prover]
fn put_upper(graph: &mut Graph, a: usize, b: usize) -> (id: usize)
    requires
        old(graph).wf(),
        a < old(graph)@.len(),
        is_short(old(graph)@, a),
        b < old(graph)@.len(),
        is_short(old(graph)@, b),
    ensures
        final(graph).wf(),
        id < final(graph)@.len(),
        is_short(final(graph)@, id),
        final(graph)@[id as int].dtype == DType::UInt32,
        keeps_amounts(old(graph)@, final(graph)@),
        forall|at: spec_fn(usize) -> int|
            #![trigger amount(final(graph)@, id, at)]
            words_at(old(graph)@, a, b, at) ==> amount(final(graph)@, id, at) == Some(
                upper(amount(old(graph)@, a, at)->0, amount(old(graph)@, b, at)->0),
            ),
{
    let ghost dag = graph@;
    let x0: usize = put_rest(graph, a, 0x1_0000);
    let x1: usize = put_quotient(graph, a, 0x1_0000);
    let y0: usize = put_rest(graph, b, 0x1_0000);
    let y1: usize = put_quotient(graph, b, 0x1_0000);
    let p00: usize = put_word(graph, BinaryOp::Mul, x0, y0, Ghost(multiplied()));
    let p01: usize = put_word(graph, BinaryOp::Mul, x0, y1, Ghost(multiplied()));
    let p10: usize = put_word(graph, BinaryOp::Mul, x1, y0, Ghost(multiplied()));
    let p11: usize = put_word(graph, BinaryOp::Mul, x1, y1, Ghost(multiplied()));
    let ghost products = graph@;
    proof {
        assert forall|at: spec_fn(usize) -> int|
            #![trigger amount(products, p00, at)]
            words_at(dag, a, b, at) implies {
            let (x, y) = (amount(dag, a, at)->0, amount(dag, b, at)->0);
            &&& amount(products, p00, at) == Some((x % 0x1_0000) * (y % 0x1_0000))
            &&& amount(products, p01, at) == Some((x % 0x1_0000) * (y / 0x1_0000))
            &&& amount(products, p10, at) == Some((x / 0x1_0000) * (y % 0x1_0000))
            &&& amount(products, p11, at) == Some((x / 0x1_0000) * (y / 0x1_0000))
        } by {
            let (x, y) = (amount(dag, a, at)->0, amount(dag, b, at)->0);
            lemma_bounded_product(x % 0x1_0000, y % 0x1_0000, 0xffff);
            lemma_bounded_product(x % 0x1_0000, y / 0x1_0000, 0xffff);
            lemma_bounded_product(x / 0x1_0000, y % 0x1_0000, 0xffff);
            lemma_bounded_product(x / 0x1_0000, y / 0x1_0000, 0xffff);
            assert(amount(products, x0, at) == Some(x % 0x1_0000));
            assert(amount(products, x1, at) == Some(x / 0x1_0000));
            assert(amount(products, y0, at) == Some(y % 0x1_0000));
            assert(amount(products, y1, at) == Some(y / 0x1_0000));
            assert(amount(products, p01, at) is Some);
            assert(amount(products, p10, at) is Some);
            assert(amount(products, p11, at) is Some);
        }
    }
    let id: usize = put_carried(graph, p00, p01, p10, p11);
    proof {
        assert forall|at: spec_fn(usize) -> int|
            #![trigger amount(graph@, id, at)]
            words_at(dag, a, b, at) implies amount(graph@, id, at) == Some(
            upper(amount(dag, a, at)->0, amount(dag, b, at)->0),
        ) by {
            let (x, y) = (amount(dag, a, at)->0, amount(dag, b, at)->0);
            lemma_bounded_product(x % 0x1_0000, y % 0x1_0000, 0xffff);
            lemma_bounded_product(x % 0x1_0000, y / 0x1_0000, 0xffff);
            lemma_bounded_product(x / 0x1_0000, y % 0x1_0000, 0xffff);
            lemma_bounded_product(x / 0x1_0000, y / 0x1_0000, 0xffff);
            lemma_upper(x, y);
            assert(amount(products, p00, at) == Some((x % 0x1_0000) * (y % 0x1_0000)));
        }
    }
    id
}

/// Whether two nodes are words.
spec fn words_at(dag: Seq<NodeView>, a: usize, b: usize, at: spec_fn(usize) -> int) -> bool {
    &&& amount(dag, a, at) is Some
    &&& is_word(amount(dag, a, at)->0)
    &&& amount(dag, b, at) is Some
    &&& is_word(amount(dag, b, at)->0)
}

/// The upper word from four products of halves.
#[verifier::rlimit(40)]
#[verifier::spinoff_prover]
fn put_carried(graph: &mut Graph, p00: usize, p01: usize, p10: usize, p11: usize) -> (id: usize)
    requires
        old(graph).wf(),
        p00 < old(graph)@.len(),
        is_short(old(graph)@, p00),
        p01 < old(graph)@.len(),
        is_short(old(graph)@, p01),
        p10 < old(graph)@.len(),
        is_short(old(graph)@, p10),
        p11 < old(graph)@.len(),
        is_short(old(graph)@, p11),
    ensures
        final(graph).wf(),
        id < final(graph)@.len(),
        is_short(final(graph)@, id),
        final(graph)@[id as int].dtype == DType::UInt32,
        keeps_amounts(old(graph)@, final(graph)@),
        forall|at: spec_fn(usize) -> int|
            #![trigger amount(final(graph)@, id, at)]
            {
                let dag = old(graph)@;
                let (a, b) = (amount(dag, p00, at)->0, amount(dag, p01, at)->0);
                let (c, d) = (amount(dag, p10, at)->0, amount(dag, p11, at)->0);
                words_at(dag, p00, p01, at) && words_at(dag, p10, p11, at) ==> amount(
                    final(graph)@,
                    id,
                    at,
                ) == Some(
                    (d + b / 0x1_0000 + c / 0x1_0000 + (a / 0x1_0000 + b % 0x1_0000 + c % 0x1_0000)
                        / 0x1_0000) % half_count(),
                )
            },
{
    let ghost dag = graph@;
    let carried: usize = put_middle(graph, p00, p01, p10);
    let ghost mid = graph@;
    let b1: usize = put_quotient(graph, p01, 0x1_0000);
    let c1: usize = put_quotient(graph, p10, 0x1_0000);
    let ghost parts = graph@;
    let id: usize = put_four(graph, p11, b1, c1, carried);
    proof {
        assert forall|at: spec_fn(usize) -> int|
            #![trigger amount(graph@, id, at)]
            words_at(dag, p00, p01, at) && words_at(dag, p10, p11, at) implies {
            let (a, b) = (amount(dag, p00, at)->0, amount(dag, p01, at)->0);
            let (c, d) = (amount(dag, p10, at)->0, amount(dag, p11, at)->0);
            amount(graph@, id, at) == Some(
                (d + b / 0x1_0000 + c / 0x1_0000 + (a / 0x1_0000 + b % 0x1_0000 + c % 0x1_0000)
                    / 0x1_0000) % half_count(),
            )
        } by {
            let (a, b) = (amount(dag, p00, at)->0, amount(dag, p01, at)->0);
            let (c, d) = (amount(dag, p10, at)->0, amount(dag, p11, at)->0);
            let m = a / 0x1_0000 + b % 0x1_0000 + c % 0x1_0000;
            assert(amount(mid, carried, at) == Some(m / 0x1_0000));
            assert(amount(parts, carried, at) == Some(m / 0x1_0000));
            assert(amount(parts, b1, at) == Some(b / 0x1_0000));
            assert(amount(parts, c1, at) == Some(c / 0x1_0000));
            assert(amount(parts, p11, at) == Some(d));
        }
    }
    id
}

proof fn lemma_four(a: int, b: int, c: int, d: int)
    ensures
        (((a + b) % half_count() + c) % half_count() + d) % half_count() == (a + b + c + d)
            % half_count(),
{
}

/// The sum of four words.
#[verifier::spinoff_prover]
fn put_four(graph: &mut Graph, a: usize, b: usize, c: usize, d: usize) -> (id: usize)
    requires
        old(graph).wf(),
        a < old(graph)@.len(),
        is_short(old(graph)@, a),
        b < old(graph)@.len(),
        is_short(old(graph)@, b),
        c < old(graph)@.len(),
        is_short(old(graph)@, c),
        d < old(graph)@.len(),
        is_short(old(graph)@, d),
    ensures
        final(graph).wf(),
        id < final(graph)@.len(),
        is_short(final(graph)@, id),
        final(graph)@[id as int].dtype == DType::UInt32,
        keeps_amounts(old(graph)@, final(graph)@),
        forall|at: spec_fn(usize) -> int|
            #![trigger amount(final(graph)@, id, at)]
            {
                let dag = old(graph)@;
                amount(dag, a, at) is Some && amount(dag, b, at) is Some && amount(dag, c, at) is Some
                    && amount(dag, d, at) is Some ==> amount(final(graph)@, id, at) == Some(
                    (amount(dag, a, at)->0 + amount(dag, b, at)->0 + amount(dag, c, at)->0 + amount(
                        dag,
                        d,
                        at,
                    )->0) % half_count(),
                )
            },
{
    let ghost dag = graph@;
    let one: usize = put_word(graph, BinaryOp::Add, a, b, Ghost(added()));
    let two: usize = put_word(graph, BinaryOp::Add, one, c, Ghost(added()));
    let id: usize = put_word(graph, BinaryOp::Add, two, d, Ghost(added()));
    proof {
        assert forall|at: spec_fn(usize) -> int|
            #![trigger amount(graph@, id, at)]
            amount(dag, a, at) is Some && amount(dag, b, at) is Some && amount(dag, c, at) is Some
                && amount(dag, d, at) is Some implies amount(graph@, id, at) == Some(
            (amount(dag, a, at)->0 + amount(dag, b, at)->0 + amount(dag, c, at)->0 + amount(
                dag,
                d,
                at,
            )->0) % half_count(),
        ) by {
            lemma_four(
                amount(dag, a, at)->0,
                amount(dag, b, at)->0,
                amount(dag, c, at)->0,
                amount(dag, d, at)->0,
            );
            assert(amount(graph@, two, at) is Some);
        }
    }
    id
}

/// What three products of halves carry into the upper word.
#[verifier::rlimit(40)]
#[verifier::spinoff_prover]
fn put_middle(graph: &mut Graph, p00: usize, p01: usize, p10: usize) -> (id: usize)
    requires
        old(graph).wf(),
        p00 < old(graph)@.len(),
        is_short(old(graph)@, p00),
        p01 < old(graph)@.len(),
        is_short(old(graph)@, p01),
        p10 < old(graph)@.len(),
        is_short(old(graph)@, p10),
    ensures
        final(graph).wf(),
        id < final(graph)@.len(),
        is_short(final(graph)@, id),
        keeps_amounts(old(graph)@, final(graph)@),
        forall|at: spec_fn(usize) -> int|
            #![trigger amount(final(graph)@, id, at)]
            {
                let dag = old(graph)@;
                let (a, b) = (amount(dag, p00, at)->0, amount(dag, p01, at)->0);
                let c = amount(dag, p10, at)->0;
                words_at(dag, p00, p01, at) && words_at(dag, p10, p10, at) ==> amount(
                    final(graph)@,
                    id,
                    at,
                ) == Some((a / 0x1_0000 + b % 0x1_0000 + c % 0x1_0000) / 0x1_0000)
            },
{
    let ghost dag = graph@;
    let a1: usize = put_quotient(graph, p00, 0x1_0000);
    let b0: usize = put_rest(graph, p01, 0x1_0000);
    let c0: usize = put_rest(graph, p10, 0x1_0000);
    let ghost parts = graph@;
    let first: usize = put_word(graph, BinaryOp::Add, a1, b0, Ghost(added()));
    let middle: usize = put_word(graph, BinaryOp::Add, first, c0, Ghost(added()));
    let ghost mid = graph@;
    let id: usize = put_quotient(graph, middle, 0x1_0000);
    proof {
        assert forall|at: spec_fn(usize) -> int|
            #![trigger amount(graph@, id, at)]
            words_at(dag, p00, p01, at) && words_at(dag, p10, p10, at) implies {
            let (a, b) = (amount(dag, p00, at)->0, amount(dag, p01, at)->0);
            let c = amount(dag, p10, at)->0;
            amount(graph@, id, at) == Some(
                (a / 0x1_0000 + b % 0x1_0000 + c % 0x1_0000) / 0x1_0000,
            )
        } by {
            let (a, b) = (amount(dag, p00, at)->0, amount(dag, p01, at)->0);
            let c = amount(dag, p10, at)->0;
            assert(amount(parts, a1, at) == Some(a / 0x1_0000));
            assert(amount(parts, b0, at) == Some(b % 0x1_0000));
            assert(amount(parts, c0, at) == Some(c % 0x1_0000));
            assert(amount(mid, middle, at) == Some(a / 0x1_0000 + b % 0x1_0000 + c % 0x1_0000));
        }
    }
    id
}

proof fn lemma_expand(ah: int, al: int, bh: int, bl: int, m: int)
    ensures
        (ah * m + al) * (bh * m + bl) == (ah * bh) * (m * m) + (al * bh + ah * bl) * m + al * bl,
{
    let y = bh * m + bl;
    lemma_mul_is_distributive_add_other_way(y, ah * m, al);
    lemma_mul_is_distributive_add(ah * m, bh * m, bl);
    lemma_mul_is_distributive_add(al, bh * m, bl);
    assert((ah * m) * (bh * m) == (ah * bh) * (m * m)) by (nonlinear_arith);
    assert((ah * m) * bl == (ah * bl) * m) by (nonlinear_arith);
    assert(al * (bh * m) == (al * bh) * m) by (nonlinear_arith);
    lemma_mul_is_distributive_add_other_way(m, al * bh, ah * bl);
}

/// The sum of products of words, from their sums within a word.
#[verifier::spinoff_prover]
#[verifier::rlimit(80)]
proof fn lemma_crossed(p: int, q: int, k: int, top: int, low: int)
    requires
        0 <= low < half_count(),
    ensures
        ({
            let m = half_count();
            let high = (top + (p % m + q % m) % m) % m;
            high * m + low == (k * word_count() + (p + q) * m + (top * m + low)) % word_count()
        }),
{
    let m = half_count();
    let high = (top + (p % m + q % m) % m) % m;
    let whole = top + p + q;
    assert(high == whole % m);
    let j = whole / m;
    assert(whole == j * m + high);
    assert(k * word_count() + (p + q) * m + (top * m + low) == (k + j) * word_count() + (high * m
        + low));
}

#[verifier::spinoff_prover]
proof fn lemma_product(al: int, ah: int, bl: int, bh: int)
    requires
        is_word(al),
        is_word(ah),
        is_word(bl),
        is_word(bh),
    ensures
        ({
            let m = half_count();
            let cross = ((al * bh) % m + (ah * bl) % m) % m;
            let high = (upper(al, bl) + cross) % m;
            high * m + (al * bl) % m == ((ah * m + al) * (bh * m + bl)) % word_count()
        }),
{
    let m = half_count();
    let (p, q, k, l) = (al * bh, ah * bl, ah * bh, al * bl);
    let top = upper(al, bl);
    lemma_upper(al, bl);
    lemma_crossed(p, q, k, top, l % m);
    lemma_expand(ah, al, bh, bl, m);
    assert((ah * m + al) * (bh * m + bl) == k * word_count() + (p + q) * m + l);
}

/// The product of two numbers: the words crosswise go into the high word.
#[verifier::rlimit(40)]
#[verifier::spinoff_prover]
pub(crate) fn put_product(graph: &mut Graph, a: Halves, b: Halves) -> (h: Halves)
    requires
        old(graph).wf(),
        a.stands(old(graph)@),
        b.stands(old(graph)@),
    ensures
        final(graph).wf(),
        keeps_amounts(old(graph)@, final(graph)@),
        h.stands(final(graph)@),
        makes(old(graph)@, final(graph)@, a, b, h, |x: int, y: int| x * y),
{
    let ghost dag = graph@;
    let low: usize = put_word(graph, BinaryOp::Mul, a.low, b.low, Ghost(multiplied()));
    let left: usize = put_word(graph, BinaryOp::Mul, a.low, b.high, Ghost(multiplied()));
    let right: usize = put_word(graph, BinaryOp::Mul, a.high, b.low, Ghost(multiplied()));
    let cross: usize = put_word(graph, BinaryOp::Add, left, right, Ghost(added()));
    let ghost mid = graph@;
    let top: usize = put_upper(graph, a.low, b.low);
    let ghost topped = graph@;
    let high: usize = put_word(graph, BinaryOp::Add, top, cross, Ghost(added()));
    let h = Halves { low, high };
    proof {
        assert forall|at: spec_fn(usize) -> int|
            #![trigger both(graph@, h, at)]
            both(dag, a, at) is Some && both(dag, b, at) is Some implies both(graph@, h, at)
            == Some((both(dag, a, at)->0 * both(dag, b, at)->0) % word_count()) by {
            let (al, ah) = (amount(dag, a.low, at)->0, amount(dag, a.high, at)->0);
            let (bl, bh) = (amount(dag, b.low, at)->0, amount(dag, b.high, at)->0);
            let m = half_count();
            lemma_product(al, ah, bl, bh);
            assert(amount(mid, a.low, at) == Some(al) && amount(mid, b.low, at) == Some(bl));
            assert(words_at(mid, a.low, b.low, at));
            assert(amount(topped, top, at) == Some(upper(al, bl)));
            assert(amount(mid, left, at) == Some((al * bh) % m));
            assert(amount(mid, right, at) == Some((ah * bl) % m));
            assert(amount(mid, cross, at) == Some(((al * bh) % m + (ah * bl) % m) % m));
            assert(amount(topped, cross, at) == amount(mid, cross, at));
            assert(amount(graph@, low, at) == Some((al * bl) % m));
            assert(amount(graph@, high, at) is Some);
        }
    }
    h
}

} // verus!
