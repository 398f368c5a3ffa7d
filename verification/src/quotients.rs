//! Quotients, remainders and shifts of 64-bit numbers, as expressions on their
//! words.

use vstd::arithmetic::div_mod::{
    lemma_div_denominator, lemma_fundamental_div_mod, lemma_fundamental_div_mod_converse, lemma_mod_multiples_vanish,
    lemma_small_mod,
};
use vstd::arithmetic::power2::{
    lemma2_to64, lemma2_to64_rest, lemma_pow2_adds, lemma_pow2_pos, lemma_pow2_unfold, pow2,
};
use vstd::prelude::*;

use crate::fold::{binary_number, truncated_div, truncated_mod, word, word_count};
use crate::graph::{BinaryOp, DType, Graph, NodeView};
use crate::halves::{
    added, amount, bits_of, both, compared, computes, is_word, keeps_amounts, put_bitwise,
    put_choice, put_difference, put_less, put_number, put_op, put_product, put_quotient, put_rest,
    put_sum, put_word, signed_number, subtracted, Halves,
};
use crate::short::is_short;
use crate::words::half_count;

verus! {

/// Whether a node is a word of one bit.
spec fn is_bit(dag: Seq<NodeView>, id: usize, at: spec_fn(usize) -> int) -> bool {
    amount(dag, id, at) == Some(0int) || amount(dag, id, at) == Some(1int)
}

/// Whether one number is below another, as a word.
#[verifier::spinoff_prover]
fn put_below(graph: &mut Graph, a: Halves, b: Halves) -> (id: usize)
    requires
        old(graph).wf(),
        a.stands(old(graph)@),
        b.stands(old(graph)@),
    ensures
        final(graph).wf(),
        id < final(graph)@.len(),
        is_short(final(graph)@, id),
        final(graph)@[id as int].dtype == DType::UInt32,
        keeps_amounts(old(graph)@, final(graph)@),
        forall|at: spec_fn(usize) -> int|
            #![trigger amount(final(graph)@, id, at)]
            both(old(graph)@, a, at) is Some && both(old(graph)@, b, at) is Some ==> amount(
                final(graph)@,
                id,
                at,
            ) == Some(
                if both(old(graph)@, a, at)->0 < both(old(graph)@, b, at)->0 {
                    1int
                } else {
                    0int
                },
            ),
{
    let ghost dag = graph@;
    let same: usize = put_op(graph, BinaryOp::Eq, DType::Bool, a.high, b.high);
    let ghost one = graph@;
    let low: usize = put_less(graph, a.low, b.low);
    let high: usize = put_less(graph, a.high, b.high);
    let ghost parts = graph@;
    let id: usize = put_choice(graph, DType::UInt32, same, low, high);
    proof {
        assert forall|at: spec_fn(usize) -> int|
            #![trigger amount(graph@, id, at)]
            both(dag, a, at) is Some && both(dag, b, at) is Some implies amount(graph@, id, at)
            == Some(
            if both(dag, a, at)->0 < both(dag, b, at)->0 {
                1int
            } else {
                0int
            },
        ) by {
            let (al, ah) = (amount(dag, a.low, at)->0, amount(dag, a.high, at)->0);
            let (bl, bh) = (amount(dag, b.low, at)->0, amount(dag, b.high, at)->0);
            assert(amount(one, same, at) == Some(
                if ah == bh {
                    1int
                } else {
                    0int
                },
            ));
            assert(amount(parts, same, at) == amount(one, same, at));
            assert(amount(parts, low, at) == Some(compared()(al, bl)));
            assert(amount(parts, high, at) == Some(compared()(ah, bh)));
        }
    }
    id
}

/// The top bit of a number, as a word.
fn put_top(graph: &mut Graph, a: Halves) -> (id: usize)
    requires
        old(graph).wf(),
        a.stands(old(graph)@),
    ensures
        final(graph).wf(),
        id < final(graph)@.len(),
        is_short(final(graph)@, id),
        final(graph)@[id as int].dtype == DType::UInt32,
        keeps_amounts(old(graph)@, final(graph)@),
        forall|at: spec_fn(usize) -> int|
            #![trigger amount(final(graph)@, id, at)]
            both(old(graph)@, a, at) is Some ==> amount(final(graph)@, id, at) == Some(
                if both(old(graph)@, a, at)->0 >= 0x8000_0000_0000_0000 {
                    1int
                } else {
                    0int
                },
            ),
{
    put_quotient(graph, a.high, 0x8000_0000)
}

/// Twice a number, with a bit put in below.
#[verifier::spinoff_prover]
fn put_doubled(graph: &mut Graph, a: Halves, bit: usize) -> (h: Halves)
    requires
        old(graph).wf(),
        a.stands(old(graph)@),
        bit < old(graph)@.len(),
        is_short(old(graph)@, bit),
    ensures
        final(graph).wf(),
        keeps_amounts(old(graph)@, final(graph)@),
        h.stands(final(graph)@),
        forall|at: spec_fn(usize) -> int|
            #![trigger both(final(graph)@, h, at)]
            both(old(graph)@, a, at) is Some && is_bit(old(graph)@, bit, at) ==> both(
                final(graph)@,
                h,
                at,
            ) == Some(
                (2 * both(old(graph)@, a, at)->0 + amount(old(graph)@, bit, at)->0) % word_count(),
            ),
{
    let ghost dag = graph@;
    let twice = put_sum(graph, a, a);
    let ghost mid = graph@;
    let low: usize = put_word(graph, BinaryOp::Add, twice.low, bit, Ghost(added()));
    let h = Halves { low, high: twice.high };
    proof {
        assert forall|at: spec_fn(usize) -> int|
            #![trigger both(graph@, h, at)]
            both(dag, a, at) is Some && is_bit(dag, bit, at) implies both(graph@, h, at) == Some(
            (2 * both(dag, a, at)->0 + amount(dag, bit, at)->0) % word_count(),
        ) by {
            let x = both(dag, a, at)->0;
            let b = amount(dag, bit, at)->0;
            assert(both(mid, twice, at) == Some((x + x) % word_count()));
            let (l, u) = (amount(mid, twice.low, at)->0, amount(mid, twice.high, at)->0);
            assert(u * half_count() + l == (x + x) % word_count());
            assert(l % 2 == 0);
            assert(amount(mid, bit, at) == Some(b));
            assert(amount(graph@, low, at) == Some(l + b));
            assert(amount(graph@, twice.high, at) == Some(u));
            assert((2 * x + b) % word_count() == (x + x) % word_count() + b);
        }
    }
    h
}

/// One of two numbers, by a condition.
pub(crate) fn put_pick(graph: &mut Graph, c: usize, a: Halves, b: Halves) -> (h: Halves)
    requires
        old(graph).wf(),
        c < old(graph)@.len(),
        is_short(old(graph)@, c),
        a.stands(old(graph)@),
        b.stands(old(graph)@),
    ensures
        final(graph).wf(),
        keeps_amounts(old(graph)@, final(graph)@),
        h.stands(final(graph)@),
        forall|at: spec_fn(usize) -> int|
            #![trigger both(final(graph)@, h, at)]
            amount(old(graph)@, c, at) is Some ==> both(final(graph)@, h, at) == (if amount(
                old(graph)@,
                c,
                at,
            )->0 != 0 {
                both(old(graph)@, a, at)
            } else {
                both(old(graph)@, b, at)
            }),
{
    let ghost dag = graph@;
    let low: usize = put_choice(graph, DType::UInt32, c, a.low, b.low);
    let ghost mid = graph@;
    let high: usize = put_choice(graph, DType::UInt32, c, a.high, b.high);
    let h = Halves { low, high };
    proof {
        assert forall|at: spec_fn(usize) -> int|
            #![trigger both(graph@, h, at)]
            amount(dag, c, at) is Some implies both(graph@, h, at) == (if amount(dag, c, at)->0
            != 0 {
            both(dag, a, at)
        } else {
            both(dag, b, at)
        }) by {
            assert(amount(graph@, low, at) == amount(mid, low, at));
            assert(amount(mid, c, at) == amount(dag, c, at));
            assert(amount(mid, a.high, at) == amount(dag, a.high, at));
            assert(amount(mid, b.high, at) == amount(dag, b.high, at));
        }
    }
    h
}

/// A number that the words of a constant are.
pub(crate) fn put_constant(graph: &mut Graph, n: u64) -> (h: Halves)
    requires
        old(graph).wf(),
    ensures
        final(graph).wf(),
        keeps_amounts(old(graph)@, final(graph)@),
        h.stands(final(graph)@),
        forall|at: spec_fn(usize) -> int| #[trigger]
            both(final(graph)@, h, at) == Some(n as int),
{
    let low: usize = put_number(graph, (n % 0x1_0000_0000) as u32, DType::UInt32);
    let ghost mid = graph@;
    let high: usize = put_number(graph, (n / 0x1_0000_0000) as u32, DType::UInt32);
    let h = Halves { low, high };
    proof {
        assert forall|at: spec_fn(usize) -> int| #[trigger]
            both(graph@, h, at) == Some(n as int) by {
            assert(amount(graph@, low, at) == amount(mid, low, at));
            assert(amount(graph@, high, at) is Some);
        }
    }
    h
}

/// How far a division has come when `left` bits of the dividend are to be taken
/// yet: what was taken is divided, and the rest stands at the top of a word.
spec fn divides(a: int, b: int, left: nat, rest: int, quotient: int, remainder: int) -> bool {
    &&& rest == (a % pow2(left) as int) * pow2((64 - left) as nat)
    &&& a / pow2(left) as int == quotient * b + remainder
    &&& 0 <= remainder < b
    &&& 0 <= quotient
}

spec fn bit(c: bool) -> int {
    if c {
        1
    } else {
        0
    }
}

proof fn lemma_step(a: int, b: int, left: nat, rest: int, quotient: int, remainder: int)
    requires
        0 <= a < word_count(),
        0 < b < word_count(),
        0 < left <= 64,
        divides(a, b, left, rest, quotient, remainder),
    ensures
        ({
            let top = bit(rest >= 0x8000_0000_0000_0000);
            let wide = 2 * remainder + top;
            let fits = wide >= b;
            &&& 0 <= rest < word_count()
            &&& 0 <= 2 * quotient + bit(fits) < word_count()
            &&& divides(
                a,
                b,
                (left - 1) as nat,
                (2 * rest) % word_count(),
                2 * quotient + bit(fits),
                wide - bit(fits) * b,
            )
        }),
{
    lemma2_to64();
    lemma2_to64_rest();
    let h = pow2((64 - left) as nat) as int;
    let l = pow2((left - 1) as nat) as int;
    let w = pow2(left) as int;
    lemma_pow2_unfold(left);
    lemma_pow2_adds((64 - left) as nat, (left - 1) as nat);
    lemma_pow2_unfold((65 - left) as nat);
    lemma_pow2_pos((64 - left) as nat);
    lemma_pow2_pos((left - 1) as nat);
    assert(w == 2 * l);
    assert(h * l == 0x8000_0000_0000_0000);
    let taken = a / w;
    let under = a % w;
    lemma_fundamental_div_mod(a, w);
    assert(0 <= under < w) by (nonlinear_arith)
        requires
            under == a % w,
            w > 0,
    ;
    let top = bit(rest >= 0x8000_0000_0000_0000);
    let below = under - top * l;
    assert(under >= l <==> rest >= h * l) by (nonlinear_arith)
        requires
            rest == under * h,
            h > 0,
    ;
    assert(0 <= below < l) by {
        if under >= l {
            assert(top * l == l);
        } else {
            assert(top * l == 0);
        }
    }
    assert(a == (2 * taken + top) * l + below) by (nonlinear_arith)
        requires
            a == w * taken + under,
            w == 2 * l,
            below == under - top * l,
    ;
    lemma_fundamental_div_mod_converse(a, l, 2 * taken + top, below);
    assert(0 <= rest < 2 * (h * l)) by (nonlinear_arith)
        requires
            rest == under * h,
            0 <= under < 2 * l,
            h > 0,
    ;
    assert(2 * rest - top * word_count() == below * (2 * h)) by (nonlinear_arith)
        requires
            rest == under * h,
            below == under - top * l,
            h * l == 0x8000_0000_0000_0000,
            word_count() == 0x1_0000_0000_0000_0000,
    ;
    assert((2 * rest) % word_count() == 2 * rest - top * word_count());
    let wide = 2 * remainder + top;
    let q = bit(wide >= b);
    assert(2 * taken + top == (2 * quotient + q) * b + (wide - q * b)) by (nonlinear_arith)
        requires
            taken == quotient * b + remainder,
            wide == 2 * remainder + top,
    ;
    assert(0 <= wide - q * b < b) by {
        if wide >= b {
            assert(q * b == b);
        } else {
            assert(q * b == 0);
        }
    }
    assert(2 * taken + top <= a) by (nonlinear_arith)
        requires
            a == (2 * taken + top) * l + below,
            l >= 1,
            below >= 0,
            2 * taken + top >= 0,
    ;
    assert(2 * quotient + q <= 2 * taken + top) by (nonlinear_arith)
        requires
            2 * taken + top == (2 * quotient + q) * b + (wide - q * b),
            b >= 1,
            wide - q * b >= 0,
            2 * quotient + q >= 0,
    ;
}

/// The words of a division under way.
struct Division {
    rest: Halves,
    quotient: Halves,
    remainder: Halves,
}

impl Division {
    spec fn stands(self, dag: Seq<NodeView>) -> bool {
        self.rest.stands(dag) && self.quotient.stands(dag) && self.remainder.stands(dag)
    }
}

/// Whether the words of a division are those of a division that has come so far.
spec fn has_come(
    x: Option<int>,
    y: Option<int>,
    dag: Seq<NodeView>,
    d: Division,
    left: nat,
    at: spec_fn(usize) -> int,
) -> bool {
    x is Some && y is Some && y->0 != 0 ==> {
        &&& both(dag, d.rest, at) is Some
        &&& both(dag, d.quotient, at) is Some
        &&& both(dag, d.remainder, at) is Some
        &&& divides(
            x->0,
            y->0,
            left,
            both(dag, d.rest, at)->0,
            both(dag, d.quotient, at)->0,
            both(dag, d.remainder, at)->0,
        )
    }
}

/// A remainder with one more bit, and whether the divisor fits into it.
#[verifier::rlimit(40)]
#[verifier::spinoff_prover]
fn put_fit(graph: &mut Graph, m: Halves, top: usize, b: Halves, one: usize) -> (fit: (Halves, usize))
    requires
        old(graph).wf(),
        m.stands(old(graph)@),
        b.stands(old(graph)@),
        top < old(graph)@.len(),
        is_short(old(graph)@, top),
        one < old(graph)@.len(),
        is_short(old(graph)@, one),
        forall|at: spec_fn(usize) -> int| #[trigger] amount(old(graph)@, one, at) == Some(1int),
    ensures
        final(graph).wf(),
        keeps_amounts(old(graph)@, final(graph)@),
        fit.0.stands(final(graph)@),
        fit.1 < final(graph)@.len(),
        is_short(final(graph)@, fit.1),
        forall|at: spec_fn(usize) -> int|
            #![trigger amount(final(graph)@, fit.1, at)]
            {
                let dag = old(graph)@;
                both(dag, m, at) is Some && is_bit(dag, top, at) && both(dag, b, at) is Some ==> {
                    let wide = 2 * both(dag, m, at)->0 + amount(dag, top, at)->0;
                    &&& both(final(graph)@, fit.0, at) == Some(wide % word_count())
                    &&& amount(final(graph)@, fit.1, at) == Some(bit(wide >= both(dag, b, at)->0))
                }
            },
{
    let ghost dag = graph@;
    let over: usize = put_top(graph, m);
    let ghost g2 = graph@;
    let wide = put_doubled(graph, m, top);
    let ghost g3 = graph@;
    let less: usize = put_below(graph, wide, b);
    let ghost g4 = graph@;
    let enough: usize = put_less(graph, less, one);
    let ghost g5 = graph@;
    let fits: usize = put_choice(graph, DType::UInt32, over, one, enough);
    proof {
        assert forall|at: spec_fn(usize) -> int|
            #![trigger amount(graph@, fits, at)]
            both(dag, m, at) is Some && is_bit(dag, top, at) && both(dag, b, at) is Some implies {
            let whole = 2 * both(dag, m, at)->0 + amount(dag, top, at)->0;
            &&& both(graph@, wide, at) == Some(whole % word_count())
            &&& amount(graph@, fits, at) == Some(bit(whole >= both(dag, b, at)->0))
        } by {
            let (n, t, v) = (both(dag, m, at)->0, amount(dag, top, at)->0, both(dag, b, at)->0);
            lemma_kept(dag, g2, m, at);
            assert(amount(g2, top, at) == Some(t));
            let s = (2 * n + t) % word_count();
            assert(both(g3, wide, at) == Some(s));
            lemma_kept(dag, g3, b, at);
            assert(amount(g4, less, at) == Some(bit(s < v)));
            assert(amount(g4, one, at) == Some(1int));
            assert(amount(g5, enough, at) == Some(bit(s >= v)));
            assert(amount(g5, over, at) == amount(g2, over, at));
            assert(amount(g5, one, at) == Some(1int));
            lemma_kept(g3, graph@, wide, at);
        }
    }
    (wide, fits)
}

/// A number less another one, where a bit says so.
#[verifier::spinoff_prover]
fn put_reduced(graph: &mut Graph, fits: usize, wide: Halves, b: Halves) -> (h: Halves)
    requires
        old(graph).wf(),
        fits < old(graph)@.len(),
        is_short(old(graph)@, fits),
        wide.stands(old(graph)@),
        b.stands(old(graph)@),
    ensures
        final(graph).wf(),
        keeps_amounts(old(graph)@, final(graph)@),
        h.stands(final(graph)@),
        forall|at: spec_fn(usize) -> int|
            #![trigger both(final(graph)@, h, at)]
            {
                let dag = old(graph)@;
                both(dag, wide, at) is Some && is_bit(dag, fits, at) && both(dag, b, at) is Some
                    ==> both(final(graph)@, h, at) == Some(
                    if amount(dag, fits, at)->0 == 1 {
                        (both(dag, wide, at)->0 - both(dag, b, at)->0) % word_count()
                    } else {
                        both(dag, wide, at)->0
                    },
                )
            },
{
    let ghost dag = graph@;
    let reduced = put_difference(graph, wide, b);
    let ghost mid = graph@;
    let h = put_pick(graph, fits, reduced, wide);
    proof {
        assert forall|at: spec_fn(usize) -> int|
            #![trigger both(graph@, h, at)]
            both(dag, wide, at) is Some && is_bit(dag, fits, at) && both(dag, b, at) is Some implies
            both(graph@, h, at) == Some(
            if amount(dag, fits, at)->0 == 1 {
                (both(dag, wide, at)->0 - both(dag, b, at)->0) % word_count()
            } else {
                both(dag, wide, at)->0
            },
        ) by {
            lemma_kept(dag, mid, wide, at);
            assert(amount(mid, fits, at) == amount(dag, fits, at));
            assert(both(mid, reduced, at) is Some);
        }
    }
    h
}

proof fn lemma_reduced(m: int, t: int, v: int)
    requires
        0 <= m < v,
        v < word_count(),
        t == 0 || t == 1,
    ensures
        2 * m + t >= v ==> ((2 * m + t) % word_count() - v) % word_count() == 2 * m + t - v,
        2 * m + t < v ==> (2 * m + t) % word_count() == 2 * m + t,
{
}

/// One more bit of the dividend, in numbers: what is left of it, the quotient
/// and the remainder.
proof fn lemma_step_numbers(u: int, v: int, left: nat, r: int, q: int, m: int)
    requires
        0 <= u < word_count(),
        0 < v < word_count(),
        0 < left <= 64,
        divides(u, v, left, r, q, m),
    ensures
        ({
            let t = bit(r >= 0x8000_0000_0000_0000);
            let wide = 2 * m + t;
            let f = bit(wide >= v);
            let rest = if f == 1 {
                (wide % word_count() - v) % word_count()
            } else {
                wide % word_count()
            };
            divides(
                u,
                v,
                (left - 1) as nat,
                (r + r) % word_count(),
                (2 * q + f) % word_count(),
                rest,
            )
        }),
{
    lemma_step(u, v, left, r, q, m);
    let t = bit(r >= 0x8000_0000_0000_0000);
    let wide = 2 * m + t;
    let f = bit(wide >= v);
    lemma_reduced(m, t, v);
    assert(1 * v == v && 0 * v == 0);
    assert((2 * q + f) % word_count() == 2 * q + f);
}

/// Takes one more bit of the dividend.
#[verifier::rlimit(60)]
#[verifier::spinoff_prover]
fn put_step(
    graph: &mut Graph,
    b: Halves,
    one: usize,
    d: Division,
    left: u32,
    Ghost(x): Ghost<spec_fn(spec_fn(usize) -> int) -> Option<int>>,
) -> (next: Division)
    requires
        old(graph).wf(),
        b.stands(old(graph)@),
        d.stands(old(graph)@),
        one < old(graph)@.len(),
        is_short(old(graph)@, one),
        0 < left <= 64,
        forall|at: spec_fn(usize) -> int| #[trigger] amount(old(graph)@, one, at) == Some(1int),
        forall|at: spec_fn(usize) -> int|
            (#[trigger] x(at)) is Some ==> 0 <= x(at)->0 < word_count(),
        forall|at: spec_fn(usize) -> int| #[trigger]
            has_come(x(at), both(old(graph)@, b, at), old(graph)@, d, left as nat, at),
    ensures
        final(graph).wf(),
        keeps_amounts(old(graph)@, final(graph)@),
        next.stands(final(graph)@),
        forall|at: spec_fn(usize) -> int| #[trigger]
            has_come(
                x(at),
                both(old(graph)@, b, at),
                final(graph)@,
                next,
                (left - 1) as nat,
                at,
            ),
{
    let ghost dag = graph@;
    let top: usize = put_top(graph, d.rest);
    let ghost g1 = graph@;
    let rest = put_sum(graph, d.rest, d.rest);
    let ghost g2 = graph@;
    let (wide, fits) = put_fit(graph, d.remainder, top, b, one);
    let ghost g3 = graph@;
    let remainder = put_reduced(graph, fits, wide, b);
    let ghost g4 = graph@;
    let quotient = put_doubled(graph, d.quotient, fits);
    let next = Division { rest, quotient, remainder };
    proof {
        assert forall|at: spec_fn(usize) -> int| #[trigger]
            has_come(x(at), both(dag, b, at), graph@, next, (left - 1) as nat, at) by {
            if x(at) is Some && both(dag, b, at) is Some && both(dag, b, at)->0 != 0 {
                assert(has_come(x(at), both(dag, b, at), dag, d, left as nat, at));
                assert(x(at)->0 < word_count());
                let (u, v) = (x(at)->0, both(dag, b, at)->0);
                let r = both(dag, d.rest, at)->0;
                let q = both(dag, d.quotient, at)->0;
                let m = both(dag, d.remainder, at)->0;
                lemma_step_numbers(u, v, left as nat, r, q, m);
                let t = bit(r >= 0x8000_0000_0000_0000);
                let f = bit(2 * m + t >= v);
                assert(amount(g1, top, at) == Some(t));
                lemma_kept(dag, g1, d.rest, at);
                assert(both(g2, rest, at) == Some((r + r) % word_count()));
                lemma_kept(dag, g2, d.remainder, at);
                lemma_kept(dag, g2, b, at);
                assert(amount(g2, top, at) == Some(t));
                assert(amount(g3, fits, at) == Some(f));
                assert(both(g3, wide, at) == Some((2 * m + t) % word_count()));
                lemma_kept(dag, g3, b, at);
                assert(both(g4, remainder, at) is Some);
                lemma_kept(dag, g4, d.quotient, at);
                assert(amount(g4, fits, at) == Some(f));
                assert(both(graph@, quotient, at) == Some((2 * q + f) % word_count()));
                lemma_kept(g4, graph@, remainder, at);
                lemma_kept(g2, graph@, rest, at);
            }
        }
    }
    next
}

pub(crate) proof fn lemma_kept(
    before: Seq<NodeView>,
    after: Seq<NodeView>,
    h: Halves,
    at: spec_fn(usize) -> int,
)
    requires
        keeps_amounts(before, after),
        h.stands(before),
    ensures
        both(after, h, at) == both(before, h, at),
{
    assert(amount(after, h.low, at) == amount(before, h.low, at));
    assert(amount(after, h.high, at) == amount(before, h.high, at));
}

/// The quotient and the remainder of two numbers without a sign, one bit at a
/// time.
fn put_division(graph: &mut Graph, a: Halves, b: Halves) -> (result: (Halves, Halves))
    requires
        old(graph).wf(),
        a.stands(old(graph)@),
        b.stands(old(graph)@),
    ensures
        final(graph).wf(),
        keeps_amounts(old(graph)@, final(graph)@),
        result.0.stands(final(graph)@),
        result.1.stands(final(graph)@),
        forall|at: spec_fn(usize) -> int| #[trigger]
            divided(old(graph)@, final(graph)@, a, b, result.0, result.1, at),
{
    let ghost dag = graph@;
    let zero = put_constant(graph, 0);
    let ghost first = graph@;
    let one: usize = put_number(graph, 1, DType::UInt32);
    let mut d = Division { rest: a, quotient: zero, remainder: zero };
    let mut left: u32 = 64;
    let ghost x = |at: spec_fn(usize) -> int| both(dag, a, at);
    proof {
        lemma2_to64();
        lemma2_to64_rest();
        assert forall|at: spec_fn(usize) -> int| #[trigger]
            has_come(x(at), both(graph@, b, at), graph@, d, left as nat, at) by {
            lemma_kept(dag, graph@, a, at);
            lemma_kept(dag, graph@, b, at);
            if both(dag, a, at) is Some {
                let n = both(dag, a, at)->0;
                assert(pow2(64) == word_count() && pow2(0) == 1);
                assert(n % word_count() == n && n / word_count() == 0);
                assert((n % pow2(64) as int) * pow2(0) == n);
                assert(n / pow2(64) as int == 0);
                assert(0 * both(dag, b, at)->0 == 0);
            }
            lemma_kept(first, graph@, zero, at);
            assert(both(first, zero, at) == Some(0int));
        }
    }
    while left > 0
        invariant
            left <= 64,
            graph.wf(),
            keeps_amounts(dag, graph@),
            a.stands(dag),
            b.stands(dag),
            d.stands(graph@),
            one < graph@.len(),
            is_short(graph@, one),
            x == (|at: spec_fn(usize) -> int| both(dag, a, at)),
            forall|at: spec_fn(usize) -> int| #[trigger] amount(graph@, one, at) == Some(1int),
            forall|at: spec_fn(usize) -> int| #[trigger]
                has_come(x(at), both(graph@, b, at), graph@, d, left as nat, at),
        decreases left,
    {
        let ghost held = graph@;
        let ghost was = left;
        d = put_step(graph, b, one, d, left, Ghost(x));
        left -= 1;
        proof {
            assert((was - 1) as nat == left as nat);
            assert forall|at: spec_fn(usize) -> int| #[trigger]
                has_come(x(at), both(graph@, b, at), graph@, d, left as nat, at) by {
                lemma_kept(held, graph@, b, at);
                assert(has_come(x(at), both(held, b, at), graph@, d, (was - 1) as nat, at));
            }
            assert forall|at: spec_fn(usize) -> int| #[trigger]
                amount(graph@, one, at) == Some(1int) by {
                assert(amount(held, one, at) == Some(1int));
            }
        }
    }
    proof {
        lemma2_to64();
        assert forall|at: spec_fn(usize) -> int| #[trigger]
            divided(dag, graph@, a, b, d.quotient, d.remainder, at) by {
            assert(has_come(x(at), both(graph@, b, at), graph@, d, left as nat, at));
            lemma_kept(dag, graph@, b, at);
            if both(dag, a, at) is Some && both(dag, b, at) is Some && both(dag, b, at)->0 != 0 {
                let (n, v) = (both(dag, a, at)->0, both(dag, b, at)->0);
                assert(n / 1 == n);
                lemma_fundamental_div_mod_converse(
                    n,
                    v,
                    both(graph@, d.quotient, at)->0,
                    both(graph@, d.remainder, at)->0,
                );
            }
        }
    }
    (d.quotient, d.remainder)
}

/// Whether words are the quotient and the remainder of two numbers, where the
/// divisor is not zero.
spec fn divided(
    before: Seq<NodeView>,
    after: Seq<NodeView>,
    a: Halves,
    b: Halves,
    quotient: Halves,
    remainder: Halves,
    at: spec_fn(usize) -> int,
) -> bool {
    both(before, a, at) is Some && both(before, b, at) is Some && both(before, b, at)->0 != 0 ==> {
        &&& both(after, quotient, at) == Some(both(before, a, at)->0 / both(before, b, at)->0)
        &&& both(after, remainder, at) == Some(both(before, a, at)->0 % both(before, b, at)->0)
    }
}

/// A number, or its negation where a condition says so.
#[verifier::spinoff_prover]
fn put_negated(graph: &mut Graph, c: usize, a: Halves) -> (h: Halves)
    requires
        old(graph).wf(),
        c < old(graph)@.len(),
        is_short(old(graph)@, c),
        a.stands(old(graph)@),
    ensures
        final(graph).wf(),
        keeps_amounts(old(graph)@, final(graph)@),
        h.stands(final(graph)@),
        forall|at: spec_fn(usize) -> int|
            #![trigger both(final(graph)@, h, at)]
            amount(old(graph)@, c, at) is Some && both(old(graph)@, a, at) is Some ==> both(
                final(graph)@,
                h,
                at,
            ) == Some(
                if amount(old(graph)@, c, at)->0 != 0 {
                    (0 - both(old(graph)@, a, at)->0) % word_count()
                } else {
                    both(old(graph)@, a, at)->0
                },
            ),
{
    let ghost dag = graph@;
    let zero = put_constant(graph, 0);
    let ghost g1 = graph@;
    let minus = put_difference(graph, zero, a);
    let ghost g2 = graph@;
    let h = put_pick(graph, c, minus, a);
    proof {
        assert forall|at: spec_fn(usize) -> int|
            #![trigger both(graph@, h, at)]
            amount(dag, c, at) is Some && both(dag, a, at) is Some implies both(graph@, h, at)
            == Some(
            if amount(dag, c, at)->0 != 0 {
                (0 - both(dag, a, at)->0) % word_count()
            } else {
                both(dag, a, at)->0
            },
        ) by {
            assert(both(g1, zero, at) == Some(0int));
            lemma_kept(dag, g1, a, at);
            lemma_kept(dag, g2, a, at);
            assert(amount(g2, c, at) == amount(dag, c, at));
            assert(both(g2, minus, at) is Some);
        }
    }
    h
}

spec fn size_of_number(x: int) -> int {
    if x < 0 {
        -x
    } else {
        x
    }
}

proof fn lemma_magnitude(x: int)
    requires
        0 <= x < word_count(),
    ensures
        size_of_number(signed_number(DType::Int64, x)) == if x >= 0x8000_0000_0000_0000 {
            (0 - x) % word_count()
        } else {
            x
        },
        signed_number(DType::Int64, x) < 0 <==> x >= 0x8000_0000_0000_0000,
        signed_number(DType::Int64, x) == 0 <==> x == 0,
{
}

proof fn lemma_signed_division(x: int, y: int)
    requires
        y != 0,
    ensures
        ({
            let (n, d) = (size_of_number(x), size_of_number(y));
            &&& truncated_div(x, y) == if (x < 0) != (y < 0) {
                0 - n / d
            } else {
                n / d
            }
            &&& truncated_mod(x, y) == if x < 0 {
                0 - n % d
            } else {
                n % d
            }
        }),
{
    let (n, d) = (size_of_number(x), size_of_number(y));
    let t = truncated_div(x, y);
    lemma_fundamental_div_mod(n, d);
    assert(y * t == if x < 0 {
        -(d * (n / d))
    } else {
        d * (n / d)
    }) by (nonlinear_arith)
        requires
            t == if (x < 0) == (y < 0) {
                n / d
            } else {
                -(n / d)
            },
            d == if y < 0 {
                -y
            } else {
                y
            },
    ;
}

proof fn lemma_quotient_bounds(n: int, d: int)
    requires
        0 <= n < word_count(),
        0 < d,
    ensures
        0 <= n / d < word_count(),
        0 <= n % d < word_count() || d > word_count(),
        0 <= n % d <= n,
{
    lemma_fundamental_div_mod(n, d);
    assert(0 <= n / d <= n && 0 <= n % d <= n) by (nonlinear_arith)
        requires
            n >= 0,
            d > 0,
    ;
}

/// Whether words are the quotient and the remainder of two numbers with a sign.
spec fn divided_signed(
    before: Seq<NodeView>,
    after: Seq<NodeView>,
    a: Halves,
    b: Halves,
    quotient: Halves,
    remainder: Halves,
    at: spec_fn(usize) -> int,
) -> bool {
    both(before, a, at) is Some && both(before, b, at) is Some && both(before, b, at)->0 != 0 ==> {
        let x = signed_number(DType::Int64, both(before, a, at)->0);
        let y = signed_number(DType::Int64, both(before, b, at)->0);
        &&& both(after, quotient, at) == Some(truncated_div(x, y) % word_count())
        &&& both(after, remainder, at) == Some(truncated_mod(x, y) % word_count())
    }
}

/// The quotient and the remainder of two numbers with a sign, from those of
/// their magnitudes.
#[verifier::rlimit(60)]
#[verifier::spinoff_prover]
fn put_signed_division(graph: &mut Graph, a: Halves, b: Halves) -> (result: (Halves, Halves))
    requires
        old(graph).wf(),
        a.stands(old(graph)@),
        b.stands(old(graph)@),
    ensures
        final(graph).wf(),
        keeps_amounts(old(graph)@, final(graph)@),
        result.0.stands(final(graph)@),
        result.1.stands(final(graph)@),
        forall|at: spec_fn(usize) -> int| #[trigger]
            divided_signed(old(graph)@, final(graph)@, a, b, result.0, result.1, at),
{
    let ghost dag = graph@;
    let na: usize = put_top(graph, a);
    let nb: usize = put_top(graph, b);
    let ghost g1 = graph@;
    let n = put_negated(graph, na, a);
    let ghost g2 = graph@;
    let d = put_negated(graph, nb, b);
    let ghost g3 = graph@;
    let (q, r) = put_division(graph, n, d);
    let ghost g4 = graph@;
    let differ: usize = put_op(graph, BinaryOp::Ne, DType::Bool, na, nb);
    let ghost g5 = graph@;
    let quotient = put_negated(graph, differ, q);
    let ghost g6 = graph@;
    let remainder = put_negated(graph, na, r);
    proof {
        assert forall|at: spec_fn(usize) -> int| #[trigger]
            divided_signed(dag, graph@, a, b, quotient, remainder, at) by {
            if both(dag, a, at) is Some && both(dag, b, at) is Some && both(dag, b, at)->0 != 0 {
                let (u, v) = (both(dag, a, at)->0, both(dag, b, at)->0);
                let (x, y) = (signed_number(DType::Int64, u), signed_number(DType::Int64, v));
                let (m, k) = (size_of_number(x), size_of_number(y));
                lemma_magnitude(u);
                lemma_magnitude(v);
                lemma_signed_division(x, y);
                lemma_quotient_bounds(m, k);
                lemma_kept(dag, g1, a, at);
                lemma_kept(dag, g1, b, at);
                assert(amount(g1, na, at) == Some(bit(x < 0)));
                assert(amount(g1, nb, at) == Some(bit(y < 0)));
                assert(both(g2, n, at) == Some(m));
                lemma_kept(g1, g2, b, at);
                assert(amount(g2, nb, at) == Some(bit(y < 0)));
                assert(both(g3, d, at) == Some(k));
                lemma_kept(g2, g3, n, at);
                assert(divided(g3, g4, n, d, q, r, at));
                assert(both(g4, q, at) == Some(m / k) && both(g4, r, at) == Some(m % k));
                assert(amount(g4, na, at) == Some(bit(x < 0)));
                assert(amount(g4, nb, at) == Some(bit(y < 0)));
                assert(amount(g5, differ, at) == Some(bit((x < 0) != (y < 0))));
                lemma_kept(g4, g5, q, at);
                lemma_kept(g4, g6, r, at);
                assert(amount(g6, na, at) == Some(bit(x < 0)));
                assert(both(g6, quotient, at) == Some(truncated_div(x, y) % word_count()));
                lemma_kept(g6, graph@, quotient, at);
                assert(both(graph@, remainder, at) is Some);
            }
        }
    }
    (quotient, remainder)
}

proof fn lemma_shifted(x: int, s: nat)
    requires
        is_word(x),
        s < 32,
    ensures
        x * pow2(s) == (x / 2 / pow2((31 - s) as nat) as int) * half_count() + (x * pow2(s))
            % half_count(),
        0 <= x / 2 / pow2((31 - s) as nat) as int <= x,
{
    lemma2_to64();
    lemma_pow2_adds(s, (32 - s) as nat);
    lemma_pow2_unfold((32 - s) as nat);
    lemma_pow2_pos(s);
    lemma_pow2_pos((31 - s) as nat);
    let p = pow2(s) as int;
    let h = pow2((31 - s) as nat) as int;
    let w = pow2((32 - s) as nat) as int;
    assert(w == 2 * h && p * w == half_count());
    let k = x / w;
    let l = x % w;
    lemma_fundamental_div_mod(x, w);
    lemma_div_denominator(x, 2, h);
    assert(x / 2 / h == k);
    assert(0 <= l < w) by (nonlinear_arith)
        requires
            l == x % w,
            w > 0,
    ;
    assert(x * p == k * (p * w) + l * p) by (nonlinear_arith)
        requires
            x == w * k + l,
    ;
    assert(0 <= l * p < p * w) by (nonlinear_arith)
        requires
            0 <= l < w,
            p > 0,
    ;
    lemma_fundamental_div_mod_converse(x * p, half_count(), k, l * p);
    assert(0 <= k <= x) by (nonlinear_arith)
        requires
            k == x / w,
            x >= 0,
            w > 0,
    ;
}

proof fn lemma_long_shift(al: int, ah: int, c: int)
    requires
        is_word(al),
        is_word(ah),
        0 <= c < 64,
    ensures
        ({
            let m = half_count();
            let s = (c % 32) as nat;
            let low = (al * pow2(s)) % m;
            let high = ((ah * pow2(s)) % m + al / 2 / pow2((31 - s) as nat) as int) % m;
            ((ah * m + al) * pow2(c as nat)) % word_count() == if c > 31 {
                low * m
            } else {
                high * m + low
            }
        }),
{
    let m = half_count();
    let s = (c % 32) as nat;
    let p = pow2(s) as int;
    let (u, v) = (ah * p, al * p);
    let carry = al / 2 / pow2((31 - s) as nat) as int;
    lemma_shifted(al, s);
    let low = v % m;
    let high = (u % m + carry) % m;
    assert((ah * m + al) * p == u * m + v) by (nonlinear_arith)
        requires
            u == ah * p,
            v == al * p,
    ;
    if c <= 31 {
        assert(high == (u + carry) % m);
        let j = (u + carry) / m;
        assert(u + carry == j * m + high);
        assert(u * m + v == j * word_count() + (high * m + low));
    } else {
        lemma2_to64();
        lemma_pow2_adds(s, 32);
        assert(pow2(c as nat) == p * m);
        assert((ah * m + al) * pow2(c as nat) == (u * m + v) * m) by (nonlinear_arith)
            requires
                (ah * m + al) * p == u * m + v,
                pow2(c as nat) == p * m,
        ;
        assert((u * m + v) * m == u * word_count() + v * m) by (nonlinear_arith)
            requires
                m * m == word_count(),
        ;
        let j = v / m;
        assert(v == j * m + low);
        assert(v * m == j * word_count() + low * m);
        assert((u * m + v) * m == (u + j) * word_count() + low * m);
    }
}

/// What a shift is made of: how far a word goes, whether it goes beyond, half
/// of the lower word, and how far that goes back.
#[derive(Clone, Copy, Debug, PartialEq, Eq, Structural)]
struct Shift {
    zero: usize,
    by: usize,
    big: usize,
    half: usize,
    back: usize,
}

impl Shift {
    spec fn stands(self, dag: Seq<NodeView>) -> bool {
        &&& self.zero < dag.len() && is_short(dag, self.zero)
        &&& self.by < dag.len() && is_short(dag, self.by)
        &&& self.big < dag.len() && is_short(dag, self.big)
        &&& self.half < dag.len() && is_short(dag, self.half)
        &&& self.back < dag.len() && is_short(dag, self.back)
    }
}

/// Whether the parts of a shift are the numbers that they are to be.
spec fn shifts(dag: Seq<NodeView>, shift: Shift, low: int, n: int, at: spec_fn(usize) -> int) -> bool {
    &&& amount(dag, shift.zero, at) == Some(0int)
    &&& amount(dag, shift.by, at) == Some(n % 32)
    &&& amount(dag, shift.big, at) == Some(bit(n > 31))
    &&& amount(dag, shift.half, at) == Some(low / 2)
    &&& amount(dag, shift.back, at) == Some(31 - n % 32)
}

#[verifier::rlimit(40)]
#[verifier::spinoff_prover]
fn put_shift(graph: &mut Graph, low: usize, c: usize) -> (shift: Shift)
    requires
        old(graph).wf(),
        low < old(graph)@.len(),
        is_short(old(graph)@, low),
        c < old(graph)@.len(),
        is_short(old(graph)@, c),
    ensures
        final(graph).wf(),
        keeps_amounts(old(graph)@, final(graph)@),
        shift.stands(final(graph)@),
        forall|at: spec_fn(usize) -> int|
            #![trigger amount(final(graph)@, shift.by, at)]
            amount(old(graph)@, low, at) is Some && is_word(amount(old(graph)@, low, at)->0)
                && amount(old(graph)@, c, at) is Some && 0 <= amount(old(graph)@, c, at)->0 < 64
                ==> shifts(
                final(graph)@,
                shift,
                amount(old(graph)@, low, at)->0,
                amount(old(graph)@, c, at)->0,
                at,
            ),
{
    let ghost dag = graph@;
    let zero: usize = put_number(graph, 0, DType::UInt32);
    let last: usize = put_number(graph, 31, DType::UInt32);
    let by: usize = put_rest(graph, c, 32);
    let big: usize = put_less(graph, last, c);
    let half: usize = put_quotient(graph, low, 2);
    let back: usize = put_word(graph, BinaryOp::Sub, last, by, Ghost(subtracted()));
    let shift = Shift { zero, by, big, half, back };
    proof {
        assert forall|at: spec_fn(usize) -> int|
            #![trigger amount(graph@, shift.by, at)]
            amount(dag, low, at) is Some && is_word(amount(dag, low, at)->0) && amount(
                dag,
                c,
                at,
            ) is Some && 0 <= amount(dag, c, at)->0 < 64 implies shifts(
            graph@,
            shift,
            amount(dag, low, at)->0,
            amount(dag, c, at)->0,
            at,
        ) by {
            let n = amount(dag, c, at)->0;
            assert(amount(graph@, zero, at) == Some(0int));
            assert(amount(graph@, by, at) == Some(n % 32));
            assert(amount(graph@, big, at) == Some(bit(n > 31)));
            assert(amount(graph@, half, at) is Some);
            assert(amount(graph@, back, at) == Some(31 - n % 32));
        }
    }
    shift
}

/// A number shifted up by a word below 64.
#[verifier::rlimit(60)]
#[verifier::spinoff_prover]
fn put_shifted(graph: &mut Graph, a: Halves, c: usize) -> (h: Halves)
    requires
        old(graph).wf(),
        a.stands(old(graph)@),
        c < old(graph)@.len(),
        is_short(old(graph)@, c),
    ensures
        final(graph).wf(),
        keeps_amounts(old(graph)@, final(graph)@),
        h.stands(final(graph)@),
        forall|at: spec_fn(usize) -> int|
            #![trigger both(final(graph)@, h, at)]
            both(old(graph)@, a, at) is Some && amount(old(graph)@, c, at) is Some && 0 <= amount(
                old(graph)@,
                c,
                at,
            )->0 < 64 ==> both(final(graph)@, h, at) == Some(
                (both(old(graph)@, a, at)->0 * pow2(amount(old(graph)@, c, at)->0 as nat))
                    % word_count(),
            ),
{
    let ghost dag = graph@;
    let Shift { zero, by: s, big, half, back } = put_shift(graph, a.low, c);
    let ghost shift = Shift { zero, by: s, big, half, back };
    let ghost g1 = graph@;
    let low: usize = put_op(graph, BinaryOp::Shl, DType::UInt32, a.low, s);
    let carry: usize = put_op(graph, BinaryOp::Shr, DType::UInt32, half, back);
    let upper: usize = put_op(graph, BinaryOp::Shl, DType::UInt32, a.high, s);
    let ghost g2 = graph@;
    let high: usize = put_word(graph, BinaryOp::Add, upper, carry, Ghost(added()));
    let ghost g3 = graph@;
    let new_low: usize = put_choice(graph, DType::UInt32, big, zero, low);
    let new_high: usize = put_choice(graph, DType::UInt32, big, low, high);
    let h = Halves { low: new_low, high: new_high };
    proof {
        assert forall|at: spec_fn(usize) -> int|
            #![trigger both(graph@, h, at)]
            both(dag, a, at) is Some && amount(dag, c, at) is Some && 0 <= amount(dag, c, at)->0
                < 64 implies both(graph@, h, at) == Some(
            (both(dag, a, at)->0 * pow2(amount(dag, c, at)->0 as nat)) % word_count(),
        ) by {
            let (al, ah) = (amount(dag, a.low, at)->0, amount(dag, a.high, at)->0);
            let n = amount(dag, c, at)->0;
            let k = (n % 32) as nat;
            lemma_long_shift(al, ah, n);
            lemma_shifted(al, k);
            assert(amount(g1, shift.by, at) is Some);
            assert(shifts(g1, shift, al, n, at));
            assert(amount(g1, a.low, at) == Some(al) && amount(g1, a.high, at) == Some(ah));
            let m = half_count();
            let carried = al / 2 / pow2((31 - k) as nat) as int;
            assert(amount(g2, low, at) == Some((al * pow2(k)) % m));
            assert(amount(g2, carry, at) == Some(carried));
            assert(amount(g2, upper, at) == Some((ah * pow2(k)) % m));
            assert(amount(g3, high, at) == Some(((ah * pow2(k)) % m + carried) % m));
            assert(amount(g3, big, at) == amount(g1, big, at));
            assert(amount(g3, zero, at) == Some(0int));
            assert(amount(g3, low, at) == amount(g2, low, at));
            assert(amount(graph@, new_low, at) is Some);
            assert(amount(graph@, new_high, at) is Some);
        }
    }
    h
}

/// The operations at full width that have an expression on words.
pub open spec fn splits_long(op: BinaryOp) -> bool {
    match op {
        BinaryOp::Add
        | BinaryOp::Sub
        | BinaryOp::Mul
        | BinaryOp::And
        | BinaryOp::Or
        | BinaryOp::Xor
        | BinaryOp::CDiv
        | BinaryOp::CMod
        | BinaryOp::Shl => true,
        _ => false,
    }
}

proof fn lemma_signed_word(dtype: DType, x: int)
    requires
        0 <= x < word_count(),
    ensures
        word(signed_number(dtype, x)) == x,
        signed_number(dtype, x) % word_count() == x,
        signed_number(dtype, x) >= 0 ==> signed_number(dtype, x) == x,
{
}

proof fn lemma_signed_product(dtype: DType, x: int, y: int)
    ensures
        (signed_number(dtype, x) * y) % word_count() == (x * y) % word_count(),
{
    let s = signed_number(dtype, x);
    let j = if s == x {
        0int
    } else {
        1int
    };
    assert(s * y == x * y - (j * y) * word_count()) by (nonlinear_arith)
        requires
            s == x - j * word_count(),
    ;
    lemma_mod_multiples_vanish(-(j * y), x * y, word_count());
    assert(word_count() * -(j * y) + x * y == s * y) by (nonlinear_arith)
        requires
            s * y == x * y - (j * y) * word_count(),
    ;
}

/// What an operation at full width is, on the bits of its operands.
spec fn on_bits(op: BinaryOp, dtype: DType, x: int, y: int) -> int {
    match op {
        BinaryOp::Add => (x + y) % word_count(),
        BinaryOp::Sub => (x - y) % word_count(),
        BinaryOp::Mul => (x * y) % word_count(),
        BinaryOp::And | BinaryOp::Or | BinaryOp::Xor => bits_of(op, x, y) % word_count(),
        BinaryOp::Shl => (x * pow2(y as nat)) % word_count(),
        BinaryOp::CDiv => truncated_div(signed_number(dtype, x), signed_number(dtype, y))
            % word_count(),
        _ => truncated_mod(signed_number(dtype, x), signed_number(dtype, y)) % word_count(),
    }
}

proof fn lemma_on_bits(op: BinaryOp, dtype: DType, x: int, y: int)
    requires
        splits_long(op),
        0 <= x < word_count(),
        0 <= y < word_count(),
        binary_number(op, signed_number(dtype, x), signed_number(dtype, y)) is Some,
    ensures
        on_bits(op, dtype, x, y) == (binary_number(
            op,
            signed_number(dtype, x),
            signed_number(dtype, y),
        )->0) % word_count(),
        op == BinaryOp::Shl ==> y < 64,
        op == BinaryOp::CDiv || op == BinaryOp::CMod ==> y != 0,
{
    let (s, t) = (signed_number(dtype, x), signed_number(dtype, y));
    lemma_signed_word(dtype, x);
    lemma_signed_word(dtype, y);
    if op == BinaryOp::Mul {
        lemma_signed_product(dtype, x, t);
        lemma_signed_product(dtype, y, x);
        assert(x * t == t * x && x * y == y * x) by (nonlinear_arith);
    }
    if op == BinaryOp::Shl {
        lemma_signed_product(dtype, x, pow2(y as nat) as int);
    }
}

/// The words of an operation at full width; nothing where it has no expression
/// on words.
#[verifier::rlimit(60)]
#[verifier::spinoff_prover]
pub(crate) fn put_binary(graph: &mut Graph, op: BinaryOp, dtype: DType, a: Halves, b: Halves) -> (h:
    Option<Halves>)
    requires
        old(graph).wf(),
        a.stands(old(graph)@),
        b.stands(old(graph)@),
    ensures
        final(graph).wf(),
        keeps_amounts(old(graph)@, final(graph)@),
        h is Some <==> splits_long(op),
        h matches Some(new) ==> new.stands(final(graph)@) && computes(
            old(graph)@,
            final(graph)@,
            op,
            dtype,
            a,
            b,
            new,
        ),
{
    let ghost dag = graph@;
    let h = match op {
        BinaryOp::Add => put_sum(graph, a, b),
        BinaryOp::Sub => put_difference(graph, a, b),
        BinaryOp::Mul => put_product(graph, a, b),
        BinaryOp::And | BinaryOp::Or | BinaryOp::Xor => put_bitwise(graph, op, a, b),
        BinaryOp::Shl => put_shifted(graph, a, b.low),
        BinaryOp::CDiv | BinaryOp::CMod => {
            let (quotient, remainder) = match dtype {
                DType::Int64 => put_signed_division(graph, a, b),
                _ => put_division(graph, a, b),
            };
            proof {
                assert forall|at: spec_fn(usize) -> int|
                    both(dag, a, at) is Some && both(dag, b, at) is Some && both(dag, b, at)->0
                        != 0 implies #[trigger] both(graph@, quotient, at) == Some(
                    on_bits(BinaryOp::CDiv, dtype, both(dag, a, at)->0, both(dag, b, at)->0),
                ) by {
                    lemma_quotients(dag, graph@, dtype, a, b, quotient, remainder, at);
                }
                assert forall|at: spec_fn(usize) -> int|
                    both(dag, a, at) is Some && both(dag, b, at) is Some && both(dag, b, at)->0
                        != 0 implies #[trigger] both(graph@, remainder, at) == Some(
                    on_bits(BinaryOp::CMod, dtype, both(dag, a, at)->0, both(dag, b, at)->0),
                ) by {
                    lemma_quotients(dag, graph@, dtype, a, b, quotient, remainder, at);
                }
            }
            match op {
                BinaryOp::CDiv => quotient,
                _ => remainder,
            }
        },
        _ => {
            return None;
        },
    };
    proof {
        assert forall|at: spec_fn(usize) -> int|
            #![trigger both(graph@, h, at)]
            both(dag, a, at) is Some && both(dag, b, at) is Some && binary_number(
                op,
                signed_number(dtype, both(dag, a, at)->0),
                signed_number(dtype, both(dag, b, at)->0),
            ) is Some implies both(graph@, h, at) == Some(
            (binary_number(
                op,
                signed_number(dtype, both(dag, a, at)->0),
                signed_number(dtype, both(dag, b, at)->0),
            )->0) % word_count(),
        ) by {
            let (x, y) = (both(dag, a, at)->0, both(dag, b, at)->0);
            lemma_on_bits(op, dtype, x, y);
            if op == BinaryOp::Shl {
                assert(amount(dag, b.low, at) == Some(y));
            }
            assert(both(graph@, h, at) == Some(on_bits(op, dtype, x, y)));
        }
    }
    Some(h)
}

proof fn lemma_quotients(
    before: Seq<NodeView>,
    after: Seq<NodeView>,
    dtype: DType,
    a: Halves,
    b: Halves,
    quotient: Halves,
    remainder: Halves,
    at: spec_fn(usize) -> int,
)
    requires
        dtype == DType::Int64 ==> divided_signed(before, after, a, b, quotient, remainder, at),
        dtype != DType::Int64 ==> divided(before, after, a, b, quotient, remainder, at),
        both(before, a, at) is Some,
        both(before, b, at) is Some,
        both(before, b, at)->0 != 0,
    ensures
        both(after, quotient, at) == Some(
            on_bits(BinaryOp::CDiv, dtype, both(before, a, at)->0, both(before, b, at)->0),
        ),
        both(after, remainder, at) == Some(
            on_bits(BinaryOp::CMod, dtype, both(before, a, at)->0, both(before, b, at)->0),
        ),
{
    let (x, y) = (both(before, a, at)->0, both(before, b, at)->0);
    if dtype != DType::Int64 {
        lemma_signed_division(x, y);
        lemma_quotient_bounds(x, y);
        lemma_small_mod((x / y) as nat, word_count() as nat);
        lemma_small_mod((x % y) as nat, word_count() as nat);
    }
}

} // verus!
