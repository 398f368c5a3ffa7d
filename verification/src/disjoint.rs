//! Windows of one storage: a write that provably misses what is read needs no
//! copy in between.

use vstd::prelude::*;

use crate::graph::{dag_wf, BinaryOp, ConstValue, Graph, NodeView, Op};
use crate::meaning::{lemma_arity, lemma_meaning, meaning};

verus! {

/// A sum of multiples of nodes, and a constant.
#[derive(Debug)]
pub struct Linear {
    pub terms: Vec<(usize, i64)>,
    pub constant: i64,
}

/// A sum of multiples of nodes as a value.
pub struct LinearView {
    pub terms: Seq<(usize, i64)>,
    pub constant: i64,
}

impl View for Linear {
    type V = LinearView;

    open spec fn view(&self) -> LinearView {
        LinearView { terms: self.terms@, constant: self.constant }
    }
}

/// Whether a number is a 64-bit integer.
pub open spec fn fits(n: int) -> bool {
    i64::MIN <= n <= i64::MAX
}

/// The first of the terms from `k` on that is a multiple of a node.
pub open spec fn term_of(terms: Seq<(usize, i64)>, node: usize, k: nat) -> nat
    decreases terms.len() - k,
{
    if k >= terms.len() || terms[k as int].0 == node {
        k
    } else {
        term_of(terms, node, k + 1)
    }
}

/// Terms with one more multiple of a node.
pub open spec fn with_term(terms: Seq<(usize, i64)>, node: usize, times: int) -> Option<
    Seq<(usize, i64)>,
> {
    let k = term_of(terms, node, 0);
    let all = if k < terms.len() {
        terms[k as int].1 + times
    } else {
        times
    };
    if !fits(times) || !fits(all) {
        None
    } else if k < terms.len() {
        Some(terms.update(k as int, (node, all as i64)))
    } else {
        Some(terms.push((node, all as i64)))
    }
}

/// Terms with the first `n` of others, each taken some number of times.
pub open spec fn with_terms(
    terms: Seq<(usize, i64)>,
    others: Seq<(usize, i64)>,
    times: int,
    n: nat,
) -> Option<Seq<(usize, i64)>>
    decreases n,
{
    if n == 0 {
        Some(terms)
    } else {
        match with_terms(terms, others, times, (n - 1) as nat) {
            None => None,
            Some(rest) => with_term(rest, others[n - 1].0, others[n - 1].1 * times),
        }
    }
}

/// One sum and another, taken some number of times. There is none where a number
/// does not fit.
pub open spec fn joined(a: LinearView, b: LinearView, times: int) -> Option<LinearView> {
    let constant = a.constant + b.constant * times;
    match with_terms(a.terms, b.terms, times, b.terms.len()) {
        Some(terms) if fits(b.constant * times) && fits(constant) => Some(
            LinearView { terms, constant: constant as i64 },
        ),
        _ => None,
    }
}

/// The sum without terms.
pub open spec fn nothing() -> LinearView {
    LinearView { terms: Seq::empty(), constant: 0 }
}

/// A node as a sum: additions, subtractions and multiplications by a constant
/// are taken apart, and any other node is a term.
pub open spec fn linear(dag: Seq<NodeView>, id: usize) -> Option<LinearView>
    decreases id,
{
    let node = dag[id as int];
    let term = Some(LinearView { terms: seq![(id, 1i64)], constant: 0 });
    match node.op {
        Op::Const(ConstValue::Int(n)) => Some(LinearView { terms: Seq::empty(), constant: n }),
        Op::Binary(op) => if (op == BinaryOp::Add || op == BinaryOp::Sub || op == BinaryOp::Mul)
            && node.srcs.len() == 2 && node.srcs[0] < id && node.srcs[1] < id {
            match (linear(dag, node.srcs[0]), linear(dag, node.srcs[1])) {
                (Some(a), Some(b)) => if op == BinaryOp::Add {
                    joined(a, b, 1)
                } else if op == BinaryOp::Sub {
                    joined(a, b, -1)
                } else if a.terms.len() == 0 {
                    joined(nothing(), b, a.constant as int)
                } else if b.terms.len() == 0 {
                    joined(nothing(), a, b.constant as int)
                } else {
                    term
                },
                _ => None,
            }
        } else {
            term
        },
        _ => term,
    }
}

/// The value of the first `n` terms, given the values of the nodes.
pub open spec fn value(terms: Seq<(usize, i64)>, of: spec_fn(usize) -> int, n: nat) -> int
    decreases n,
{
    if n == 0 {
        0
    } else {
        value(terms, of, (n - 1) as nat) + terms[n - 1].1 * of(terms[n - 1].0)
    }
}

/// The value of a sum.
pub open spec fn total(sum: LinearView, of: spec_fn(usize) -> int) -> int {
    value(sum.terms, of, sum.terms.len()) + sum.constant
}

proof fn lemma_term_of(terms: Seq<(usize, i64)>, node: usize, k: nat)
    requires
        k <= terms.len(),
    ensures
        k <= term_of(terms, node, k) <= terms.len(),
        term_of(terms, node, k) < terms.len() ==> terms[term_of(terms, node, k) as int].0 == node,
    decreases terms.len() - k,
{
    if k < terms.len() && terms[k as int].0 != node {
        lemma_term_of(terms, node, k + 1);
    }
}

proof fn lemma_value_prefix(
    a: Seq<(usize, i64)>,
    b: Seq<(usize, i64)>,
    of: spec_fn(usize) -> int,
    n: nat,
)
    requires
        n <= a.len(),
        n <= b.len(),
        forall|i: int| 0 <= i < n ==> a[i] == b[i],
    ensures
        value(a, of, n) == value(b, of, n),
    decreases n,
{
    if n > 0 {
        lemma_value_prefix(a, b, of, (n - 1) as nat);
    }
}

proof fn lemma_value_update(
    terms: Seq<(usize, i64)>,
    k: int,
    all: i64,
    of: spec_fn(usize) -> int,
    n: nat,
)
    requires
        0 <= k < terms.len(),
        n <= terms.len(),
    ensures
        value(terms.update(k, (terms[k].0, all)), of, n) == value(terms, of, n) + (if k < n {
            (all - terms[k].1) * of(terms[k].0)
        } else {
            0
        }),
    decreases n,
{
    if n > 0 {
        lemma_value_update(terms, k, all, of, (n - 1) as nat);
        if n - 1 == k {
            let v = of(terms[k].0);
            let old = terms[k].1 as int;
            assert(all * v == old * v + (all - old) * v) by (nonlinear_arith);
        }
    }
}

proof fn lemma_with_term(
    terms: Seq<(usize, i64)>,
    node: usize,
    times: int,
    of: spec_fn(usize) -> int,
)
    requires
        with_term(terms, node, times) is Some,
    ensures
        ({
            let new = with_term(terms, node, times)->0;
            value(new, of, new.len()) == value(terms, of, terms.len()) + times * of(node)
        }),
{
    lemma_term_of(terms, node, 0);
    let k = term_of(terms, node, 0);
    if k < terms.len() {
        let all = (terms[k as int].1 + times) as i64;
        lemma_value_update(terms, k as int, all, of, terms.len());
    } else {
        let new = with_term(terms, node, times)->0;
        lemma_value_prefix(new, terms, of, terms.len());
    }
}

proof fn lemma_with_terms(
    terms: Seq<(usize, i64)>,
    others: Seq<(usize, i64)>,
    times: int,
    of: spec_fn(usize) -> int,
    n: nat,
)
    requires
        n <= others.len(),
        with_terms(terms, others, times, n) is Some,
    ensures
        ({
            let new = with_terms(terms, others, times, n)->0;
            value(new, of, new.len()) == value(terms, of, terms.len()) + value(others, of, n)
                * times
        }),
    decreases n,
{
    if n > 0 {
        lemma_with_terms(terms, others, times, of, (n - 1) as nat);
        let rest = with_terms(terms, others, times, (n - 1) as nat)->0;
        let c = others[n - 1].1 as int;
        let v = of(others[n - 1].0);
        lemma_with_term(rest, others[n - 1].0, c * times, of);
        let s = value(others, of, (n - 1) as nat);
        assert((s + c * v) * times == s * times + (c * times) * v) by (nonlinear_arith);
    } else {
        assert(0 * times == 0) by (nonlinear_arith);
    }
}

/// Joining sums joins their values.
pub proof fn lemma_joined(a: LinearView, b: LinearView, times: int, of: spec_fn(usize) -> int)
    requires
        joined(a, b, times) is Some,
    ensures
        total(joined(a, b, times)->0, of) == total(a, of) + total(b, of) * times,
{
    lemma_with_terms(a.terms, b.terms, times, of, b.terms.len());
    let s = value(b.terms, of, b.terms.len());
    let c = b.constant as int;
    assert((s + c) * times == s * times + c * times) by (nonlinear_arith);
}

/// What nodes mean at an assignment, as numbers.
pub open spec fn numbers(dag: Seq<NodeView>, at: spec_fn(Op) -> int) -> spec_fn(usize) -> int {
    |id: usize| meaning(dag, id, at)->0
}

/// A node that means something means what its sum comes to.
pub proof fn lemma_linear_means(dag: Seq<NodeView>, id: usize, at: spec_fn(Op) -> int)
    requires
        dag_wf(dag),
        id < dag.len(),
        linear(dag, id) is Some,
        meaning(dag, id, at) is Some,
    ensures
        meaning(dag, id, at) == Some(total(linear(dag, id)->0, numbers(dag, at))),
    decreases id,
{
    let node = dag[id as int];
    let of = numbers(dag, at);
    lemma_arity(dag, id);
    lemma_meaning(dag, id, at);
    let term = LinearView { terms: seq![(id, 1i64)], constant: 0 };
    assert(total(term, of) == of(id)) by {
        assert(value(term.terms, of, 1) == value(term.terms, of, 0) + 1 * of(id));
    }
    match node.op {
        Op::Binary(op) => {
            assert(dag[id as int].srcs[0] < id);
            assert(dag[id as int].srcs[1] < id);
            if op == BinaryOp::Add || op == BinaryOp::Sub || op == BinaryOp::Mul {
                let l = node.srcs[0];
                let r = node.srcs[1];
                assert(meaning(dag, l, at) is Some && meaning(dag, r, at) is Some);
                lemma_linear_means(dag, l, at);
                lemma_linear_means(dag, r, at);
                let a = linear(dag, l)->0;
                let b = linear(dag, r)->0;
                let x = total(a, of);
                let y = total(b, of);
                assert(total(nothing(), of) == 0);
                if op == BinaryOp::Add {
                    lemma_joined(a, b, 1, of);
                } else if op == BinaryOp::Sub {
                    lemma_joined(a, b, -1, of);
                } else if a.terms.len() == 0 {
                    lemma_joined(nothing(), b, a.constant as int, of);
                    assert(value(a.terms, of, 0) == 0);
                    assert(y * x == x * y) by (nonlinear_arith);
                } else if b.terms.len() == 0 {
                    lemma_joined(nothing(), a, b.constant as int, of);
                    assert(value(b.terms, of, 0) == 0);
                }
            }
        },
        _ => {},
    }
}

/// Whether no node is left in a sum.
pub open spec fn is_constant(terms: Seq<(usize, i64)>) -> bool {
    forall|i: int| 0 <= i < terms.len() ==> (#[trigger] terms[i]).1 == 0
}

/// How far one node is ahead of another, where that is constant.
pub open spec fn gap(dag: Seq<NodeView>, a: usize, b: usize) -> Option<i64> {
    match (linear(dag, a), linear(dag, b)) {
        (Some(x), Some(y)) => match joined(x, y, -1) {
            Some(difference) if is_constant(difference.terms) => Some(difference.constant),
            _ => None,
        },
        _ => None,
    }
}

/// Whether a window at one offset provably misses a window at another.
pub open spec fn is_disjoint(
    dag: Seq<NodeView>,
    write: usize,
    write_size: usize,
    read: usize,
    read_size: usize,
) -> bool {
    match gap(dag, write, read) {
        Some(ahead) => ahead >= read_size || -ahead >= write_size,
        None => false,
    }
}

proof fn lemma_constant_value(terms: Seq<(usize, i64)>, of: spec_fn(usize) -> int, n: nat)
    requires
        is_constant(terms),
        n <= terms.len(),
    ensures
        value(terms, of, n) == 0,
    decreases n,
{
    if n > 0 {
        lemma_constant_value(terms, of, (n - 1) as nat);
        assert(terms[n - 1].1 == 0);
        assert(0 * of(terms[n - 1].0) == 0) by (nonlinear_arith);
    }
}

/// A constant gap is the difference of what the nodes mean, wherever both mean
/// something.
pub proof fn lemma_gap(dag: Seq<NodeView>, a: usize, b: usize, at: spec_fn(Op) -> int)
    requires
        dag_wf(dag),
        a < dag.len(),
        b < dag.len(),
        gap(dag, a, b) is Some,
        meaning(dag, a, at) is Some,
        meaning(dag, b, at) is Some,
    ensures
        meaning(dag, a, at)->0 - meaning(dag, b, at)->0 == gap(dag, a, b)->0,
{
    let of = numbers(dag, at);
    lemma_linear_means(dag, a, at);
    lemma_linear_means(dag, b, at);
    let x = linear(dag, a)->0;
    let y = linear(dag, b)->0;
    lemma_joined(x, y, -1, of);
    let difference = joined(x, y, -1)->0;
    lemma_constant_value(difference.terms, of, difference.terms.len());
}

/// Windows that are said to be disjoint share no place, whatever the variables
/// are.
pub proof fn lemma_disjoint_windows(
    dag: Seq<NodeView>,
    write: usize,
    write_size: usize,
    read: usize,
    read_size: usize,
    at: spec_fn(Op) -> int,
)
    requires
        dag_wf(dag),
        write < dag.len(),
        read < dag.len(),
        is_disjoint(dag, write, write_size, read, read_size),
        meaning(dag, write, at) is Some,
        meaning(dag, read, at) is Some,
    ensures
        forall|i: int, j: int|
            0 <= i < write_size && 0 <= j < read_size ==> #[trigger] (meaning(dag, write, at)->0
                + i) != #[trigger] (meaning(dag, read, at)->0 + j),
{
    lemma_gap(dag, write, read, at);
}

fn add_term(terms: &mut Vec<(usize, i64)>, node: usize, times: i64) -> (ok: bool)
    ensures
        match with_term(old(terms)@, node, times as int) {
            Some(new) => ok && final(terms)@ == new,
            None => !ok,
        },
{
    let mut k: usize = 0;
    proof {
        lemma_term_of(terms@, node, 0);
    }
    while k < terms.len() && terms[k].0 != node
        invariant
            k <= terms@.len(),
            terms@ == old(terms)@,
            term_of(terms@, node, 0) == term_of(terms@, node, k as nat),
        decreases terms@.len() - k,
    {
        k += 1;
    }
    if k < terms.len() {
        match terms[k].1.checked_add(times) {
            None => false,
            Some(all) => {
                terms.set(k, (node, all));
                true
            },
        }
    } else {
        terms.push((node, times));
        true
    }
}

fn join(a: Linear, b: &Linear, times: i64) -> (sum: Option<Linear>)
    ensures
        match joined(a@, b@, times as int) {
            Some(new) => sum is Some && sum->0@ == new,
            None => sum is None,
        },
{
    let ghost start = a.terms@;
    let constant: i64 = a.constant;
    let mut terms: Vec<(usize, i64)> = a.terms;
    let mut n: usize = 0;
    while n < b.terms.len()
        invariant
            n <= b.terms@.len(),
            start == a@.terms,
            with_terms(start, b.terms@, times as int, n as nat) == Some(terms@),
        decreases b.terms@.len() - n,
    {
        let (node, factor) = b.terms[n];
        let added = match factor.checked_mul(times) {
            None => false,
            Some(product) => add_term(&mut terms, node, product),
        };
        if !added {
            proof {
                assert(with_terms(start, b.terms@, times as int, (n + 1) as nat) is None);
                lemma_none_stays(start, b.terms@, times as int, (n + 1) as nat, b.terms@.len());
            }
            return None;
        }
        n += 1;
    }
    match b.constant.checked_mul(times) {
        None => None,
        Some(product) => match constant.checked_add(product) {
            None => None,
            Some(all) => Some(Linear { terms, constant: all }),
        },
    }
}

proof fn lemma_none_stays(
    terms: Seq<(usize, i64)>,
    others: Seq<(usize, i64)>,
    times: int,
    n: nat,
    m: nat,
)
    requires
        n <= m,
        with_terms(terms, others, times, n) is None,
    ensures
        with_terms(terms, others, times, m) is None,
    decreases m,
{
    if n < m {
        lemma_none_stays(terms, others, times, n, (m - 1) as nat);
    }
}

fn single(id: usize) -> (sum: Linear)
    ensures
        sum@.terms == seq![(id, 1i64)],
        sum@.constant == 0,
{
    let mut terms: Vec<(usize, i64)> = Vec::new();
    terms.push((id, 1));
    assert(terms@ =~= seq![(id, 1i64)]);
    Linear { terms, constant: 0 }
}

/// A node as a sum of multiples of nodes.
pub fn find_linear(graph: &Graph, id: usize) -> (sum: Option<Linear>)
    requires
        graph.wf(),
        id < graph@.len(),
    ensures
        match linear(graph@, id) {
            Some(want) => sum is Some && sum->0@ == want,
            None => sum is None,
        },
    decreases id,
{
    proof {
        lemma_arity(graph@, id);
    }
    match graph.op(id) {
        Op::Const(ConstValue::Int(n)) => {
            let sum = Linear { terms: Vec::new(), constant: n };
            assert(sum@.terms =~= Seq::empty());
            Some(sum)
        },
        Op::Binary(op) => {
            if op != BinaryOp::Add && op != BinaryOp::Sub && op != BinaryOp::Mul {
                return Some(single(id));
            }
            let l: usize = graph.source(id, 0);
            let r: usize = graph.source(id, 1);
            let left = find_linear(graph, l);
            let right = find_linear(graph, r);
            match (left, right) {
                (Some(a), Some(b)) => if op == BinaryOp::Add {
                    join(a, &b, 1)
                } else if op == BinaryOp::Sub {
                    join(a, &b, -1)
                } else {
                    let none = Linear { terms: Vec::new(), constant: 0 };
                    assert(none@.terms =~= nothing().terms);
                    if a.terms.len() == 0 {
                        join(none, &b, a.constant)
                    } else if b.terms.len() == 0 {
                        join(none, &a, b.constant)
                    } else {
                        Some(single(id))
                    }
                },
                _ => None,
            }
        },
        _ => Some(single(id)),
    }
}

/// How far one node is ahead of another, where that is constant.
pub fn find_gap(graph: &Graph, a: usize, b: usize) -> (ahead: Option<i64>)
    requires
        graph.wf(),
        a < graph@.len(),
        b < graph@.len(),
    ensures
        ahead == gap(graph@, a, b),
{
    let left = find_linear(graph, a);
    let right = find_linear(graph, b);
    match (left, right) {
        (Some(x), Some(y)) => match join(x, &y, -1) {
            None => None,
            Some(difference) => {
                let mut n: usize = 0;
                while n < difference.terms.len()
                    invariant
                        n <= difference.terms@.len(),
                        gap(graph@, a, b) == (if is_constant(difference.terms@) {
                            Some(difference.constant)
                        } else {
                            None
                        }),
                        forall|i: int|
                            0 <= i < n ==> (#[trigger] difference.terms@[i]).1 == 0,
                    decreases difference.terms@.len() - n,
                {
                    if difference.terms[n].1 != 0 {
                        assert(!is_constant(difference.terms@));
                        return None;
                    }
                    n += 1;
                }
                Some(difference.constant)
            },
        },
        _ => None,
    }
}

/// Whether a write provably misses what is read from the same storage, so that
/// nothing has to be kept aside in between.
pub fn disjoint_windows(
    graph: &Graph,
    write: usize,
    write_size: usize,
    read: usize,
    read_size: usize,
) -> (r: bool)
    requires
        graph.wf(),
        write < graph@.len(),
        read < graph@.len(),
    ensures
        r == is_disjoint(graph@, write, write_size, read, read_size),
{
    match find_gap(graph, write, read) {
        None => false,
        Some(ahead) => ahead as i128 >= read_size as i128 || -(ahead as i128) >= write_size as i128,
    }
}

} // verus!
