//! Divisions as multiplications.

use vstd::arithmetic::power2::{
    lemma2_to64, lemma2_to64_rest, lemma_pow2_adds, lemma_pow2_pos, lemma_pow2_strictly_increases,
    lemma_pow2_unfold, pow2,
};
use vstd::prelude::*;

use crate::bounds::{admits, bounds, find_bounds, lemma_bounds_hold};
use crate::builders::{const_node, lemma_interned_keeps, put, Built};
use crate::collapse::{extremes, find_extremes};
use crate::dce::{put_where, where_node};
use crate::fold::truncated_div;
use crate::graph::{dag_wf, BinaryOp, ConstValue, DType, Graph, NodeView, Op};
use crate::late::{
    exponent, find_exponent, int_at, int_of, lemma_with_int, lemma_with_int_grows, made, pair_node,
    put_int, put_pair, put_with_int, with_int,
};
use crate::meaning::{lemma_arity, lemma_meaning, lemma_meaning_extends, lemma_put_meaning, meaning};
use crate::passes::{extends, grown};

verus! {

/// How much a power of two lacks to a multiple of a divisor.
pub open spec fn lack(power: int, divisor: int) -> int {
    divisor - 1 - (power - 1) % divisor
}

/// The greatest number up to a bound that is one below a multiple of a divisor.
pub open spec fn top(bound: int, divisor: int) -> int {
    (bound + 1) / divisor * divisor - 1
}

/// Whether a shift is wide enough to divide numbers up to a bound.
pub open spec fn is_enough(bound: int, divisor: int, shift: nat) -> bool {
    pow2(shift) > top(bound, divisor) * lack(pow2(shift) as int, divisor)
}

/// What is multiplied by before a shift.
pub open spec fn factor_of(divisor: int, shift: nat) -> int {
    (pow2(shift) + lack(pow2(shift) as int, divisor)) / divisor
}

/// A division by a constant: a multiplication and a shift to the right.
#[derive(Clone, Copy, Debug, PartialEq, Eq, Structural)]
pub struct Magic {
    pub factor: u128,
    pub shift: u32,
}

proof fn lemma_lack(power: int, divisor: int)
    requires
        power > 0,
        divisor > 0,
    ensures
        0 <= lack(power, divisor) < divisor,
        (power + lack(power, divisor)) % divisor == 0,
        (power + lack(power, divisor)) / divisor * divisor == power + lack(power, divisor),
{
    let q = (power - 1) / divisor;
    let r = (power - 1) % divisor;
    assert(power - 1 == divisor * q + r && 0 <= r < divisor) by (nonlinear_arith)
        requires
            divisor > 0,
            q == (power - 1) / divisor,
            r == (power - 1) % divisor,
    ;
    let sum = power + lack(power, divisor);
    assert(sum == divisor * (q + 1)) by (nonlinear_arith)
        requires
            sum == power + (divisor - 1 - r),
            power - 1 == divisor * q + r,
    ;
    assert(sum % divisor == 0 && sum / divisor == q + 1) by (nonlinear_arith)
        requires
            sum == divisor * (q + 1),
            divisor > 0,
    ;
    assert((q + 1) * divisor == divisor * (q + 1)) by (nonlinear_arith);
}

proof fn lemma_top(bound: int, divisor: int, x: int)
    requires
        0 < divisor <= bound + 1,
        0 <= x <= bound,
    ensures
        divisor - 1 <= top(bound, divisor) <= bound,
        x <= top(bound, divisor) || x % divisor <= divisor - 2,
{
    let k = (bound + 1) / divisor;
    let t = top(bound, divisor);
    assert(k >= 1 && k * divisor <= bound + 1 && bound + 1 < (k + 1) * divisor && k * divisor
        >= divisor) by (nonlinear_arith)
        requires
            0 < divisor <= bound + 1,
            k == (bound + 1) / divisor,
    ;
    if x > t {
        let r = x - k * divisor;
        assert(0 <= r && r <= divisor - 2) by (nonlinear_arith)
            requires
                r == x - k * divisor,
                x > k * divisor - 1,
                x <= bound,
                bound + 1 < (k + 1) * divisor,
        ;
        assert(x % divisor == r) by (nonlinear_arith)
            requires
                x == k * divisor + r,
                0 <= r < divisor,
        ;
    }
}

/// A number times the factor, shifted, is the number divided; and where the
/// divisor is not a power of two, the shift leaves a rest.
pub proof fn lemma_magic_divides(bound: int, divisor: int, shift: nat, x: int)
    requires
        0 < divisor <= bound + 1,
        0 <= x <= bound,
        is_enough(bound, divisor, shift),
    ensures
        (x * factor_of(divisor, shift)) / pow2(shift) as int == x / divisor,
        x > 0 && lack(pow2(shift) as int, divisor) > 0 ==> (x * factor_of(divisor, shift))
            % pow2(shift) as int > 0,
{
    lemma_pow2_pos(shift);
    let p = pow2(shift) as int;
    let e = lack(p, divisor);
    let m = factor_of(divisor, shift);
    let t = top(bound, divisor);
    let q = x / divisor;
    let r = x % divisor;
    lemma_lack(p, divisor);
    lemma_top(bound, divisor, x);
    assert(x == q * divisor + r && 0 <= r < divisor && q >= 0) by (nonlinear_arith)
        requires
            0 < divisor,
            0 <= x,
            q == x / divisor,
            r == x % divisor,
    ;
    assert(m * divisor == p + e);
    assert(x * m * divisor == x * p + x * e) by (nonlinear_arith)
        requires
            m * divisor == p + e,
    ;
    assert(x * e < (divisor - r) * p) by {
        if x <= t {
            assert(x * e <= t * e) by (nonlinear_arith)
                requires
                    x <= t,
                    e >= 0,
            ;
            assert(p <= (divisor - r) * p) by (nonlinear_arith)
                requires
                    divisor - r >= 1,
                    p > 0,
            ;
        } else {
            lemma_over_top(bound, divisor, p, e, x);
        }
    }
    assert(q * p <= x * m) by (nonlinear_arith)
        requires
            x * m * divisor == x * p + x * e,
            x == q * divisor + r,
            r >= 0,
            x * e >= 0,
            p > 0,
            divisor > 0,
    {
        assert(q * p * divisor <= x * p);
    }
    assert(x * m < (q + 1) * p) by (nonlinear_arith)
        requires
            x * m * divisor == x * p + x * e,
            x == q * divisor + r,
            x * e < (divisor - r) * p,
            p > 0,
            divisor > 0,
    {
        assert(x * p + (divisor - r) * p == (q + 1) * p * divisor);
    }
    assert((x * m) / p == q && (x * m) % p == x * m - q * p) by (nonlinear_arith)
        requires
            q * p <= x * m < (q + 1) * p,
            p > 0,
    ;
    if x > 0 && e > 0 {
        assert(x * m > q * p) by (nonlinear_arith)
            requires
                x * m * divisor == x * p + x * e,
                x == q * divisor + r,
                r >= 0,
                x > 0,
                e > 0,
                p > 0,
                divisor > 0,
        {
            assert(x * e > 0);
            assert(q * p * divisor <= x * p);
        }
    }
}

proof fn lemma_over_top(bound: int, divisor: int, p: int, e: int, x: int)
    requires
        0 < divisor <= bound + 1,
        top(bound, divisor) < x <= bound,
        p > 0,
        0 <= e < divisor,
        p > top(bound, divisor) * e,
    ensures
        x * e < (divisor - x % divisor) * p,
{
    let t = top(bound, divisor);
    let k = (bound + 1) / divisor;
    lemma_top(bound, divisor, x);
    assert(bound + 1 < (k + 1) * divisor && k * divisor >= divisor) by (nonlinear_arith)
        requires
            0 < divisor <= bound + 1,
            k == (bound + 1) / divisor,
    ;
    let r = x - (t + 1);
    assert(x % divisor == r && 0 <= r <= divisor - 2) by (nonlinear_arith)
        requires
            r == x - k * divisor,
            x > k * divisor - 1,
            x <= bound,
            bound + 1 < (k + 1) * divisor,
            divisor > 0,
    ;
    assert((1 + r) * e <= t * e) by (nonlinear_arith)
        requires
            1 + r <= t,
            e >= 0,
    ;
    assert(x * e == t * e + (1 + r) * e) by (nonlinear_arith)
        requires
            x == t + 1 + r,
    ;
    assert(2 * p <= (divisor - r) * p) by (nonlinear_arith)
        requires
            divisor - r >= 2,
            p > 0,
    ;
}

/// The narrowest shift that divides numbers up to a bound, and its factor.
pub fn find_magic(bound: u64, divisor: u64) -> (found: Magic)
    requires
        bound <= i64::MAX,
        0 < divisor <= bound,
    ensures
        is_enough(bound as int, divisor as int, found.shift as nat),
        forall|t: nat| t < found.shift ==> !is_enough(bound as int, divisor as int, t),
        found.factor == factor_of(divisor as int, found.shift as nat),
        found.shift <= 126,
{
    let d: u128 = divisor as u128;
    let whole: u128 = (bound as u128 + 1) / d;
    proof {
        lemma_top(bound as int, divisor as int, 0);
        assert(whole * d <= bound + 1) by (nonlinear_arith)
            requires
                whole == (bound as int + 1) / d as int,
                d > 0,
        ;
        assert(whole * d >= d) by (nonlinear_arith)
            requires
                whole == (bound as int + 1) / d as int,
                0 < d <= bound,
        ;
    }
    let t: u128 = whole * d - 1;
    let mut power: u128 = 1;
    let mut shift: u32 = 0;
    proof {
        lemma2_to64();
        lemma_lack(1, divisor as int);
    }
    let mut e: u128 = d - 1 - (power - 1) % d;
    proof {
        lemma_product_fits(t, e, d, bound as u128);
    }
    while power <= t * e
        invariant
            bound <= i64::MAX,
            0 < d <= bound,
            d == divisor,
            t == top(bound as int, divisor as int),
            t <= bound,
            power == pow2(shift as nat),
            1 <= power,
            e == lack(power as int, divisor as int),
            e < d,
            t * e < 0x4000_0000_0000_0000_0000_0000_0000_0000,
            power < 0x8000_0000_0000_0000_0000_0000_0000_0000,
            shift <= 126,
            forall|k: nat| k < shift ==> !is_enough(bound as int, divisor as int, k),
        decreases 0x8000_0000_0000_0000_0000_0000_0000_0000 - power,
    {
        proof {
            lemma_shift_below(power, shift);
            lemma_pow2_unfold((shift + 1) as nat);
        }
        power = power * 2;
        shift += 1;
        proof {
            lemma_lack(power as int, divisor as int);
        }
        e = d - 1 - (power - 1) % d;
        proof {
            lemma_product_fits(t, e, d, bound as u128);
        }
    }
    proof {
        lemma_lack(power as int, divisor as int);
    }
    Magic { factor: (power + e) / d, shift }
}

proof fn lemma_product_fits(t: u128, e: u128, d: u128, bound: u128)
    requires
        t <= bound <= i64::MAX,
        e < d <= bound,
    ensures
        t * e < 0x4000_0000_0000_0000_0000_0000_0000_0000,
{
    assert(t * e <= 0x7fff_ffff_ffff_ffff * 0x7fff_ffff_ffff_ffff) by (nonlinear_arith)
        requires
            0 <= t <= 0x7fff_ffff_ffff_ffff,
            0 <= e <= 0x7fff_ffff_ffff_ffff,
    ;
}

proof fn lemma_shift_below(power: u128, shift: u32)
    requires
        power == pow2(shift as nat),
        power < 0x4000_0000_0000_0000_0000_0000_0000_0000,
        shift <= 126,
    ensures
        shift < 126,
{
    if shift == 126 {
        lemma2_to64_rest();
        lemma_pow2_adds(63, 63);
        assert(pow2(63) == 0x8000_0000_0000_0000);
        assert(0x8000_0000_0000_0000 * 0x8000_0000_0000_0000
            == 0x4000_0000_0000_0000_0000_0000_0000_0000int);
    }
}

/// Whether a shift is the narrowest that divides numbers up to a bound.
pub open spec fn is_least(bound: int, divisor: int, shift: nat) -> bool {
    is_enough(bound, divisor, shift) && forall|t: nat|
        t < shift ==> !(#[trigger] is_enough(bound, divisor, t))
}

/// The narrowest shift that divides numbers up to a bound.
pub open spec fn shift_of(bound: int, divisor: int) -> nat {
    choose|shift: nat| is_least(bound, divisor, shift)
}

proof fn lemma_shift_of(bound: int, divisor: int, shift: nat)
    requires
        is_least(bound, divisor, shift),
    ensures
        shift_of(bound, divisor) == shift,
{
    let other = shift_of(bound, divisor);
    assert(is_least(bound, divisor, other));
    if other < shift {
        assert(!is_enough(bound, divisor, other));
    } else if shift < other {
        assert(!is_enough(bound, divisor, shift));
    }
}

/// The greatest size of a number between two others.
pub open spec fn size_between(low: int, high: int) -> int {
    if high < -low {
        -low
    } else {
        high
    }
}

/// Whether a product with the factor stays in a type, and the shift in a word.
pub open spec fn stays_inside(dtype: DType, low: int, high: int, divisor: int) -> bool {
    let bound = size_between(low, high);
    let shift = shift_of(bound, divisor);
    let factor = factor_of(divisor, shift);
    &&& divisor <= bound <= i64::MAX
    &&& shift < 64
    &&& factor <= i64::MAX
    &&& extremes(dtype) matches Some(ends) && ends.0 <= factor * low && factor * high <= ends.1
}

/// Whether a division can be done by a multiplication: by a constant that is no
/// power of two, of a value with known bounds.
pub open spec fn is_quick(dag: Seq<NodeView>, id: usize) -> bool {
    let node = dag[id as int];
    &&& node.op == Op::Binary(BinaryOp::CDiv) || node.op == Op::Binary(BinaryOp::CMod)
    &&& match (int_of(dag, node.srcs[1]), bounds(dag, node.srcs[0])) {
        (Some(divisor), Some(ends)) => {
            &&& divisor > 1
            &&& exponent(divisor) is None
            &&& stays_inside(node.dtype, ends.0, ends.1, divisor as int)
        },
        _ => false,
    }
}

/// A number, and one more where a value is negative.
pub open spec fn rounded_up(
    dag: Seq<NodeView>,
    number: usize,
    value: usize,
    like: usize,
    dtype: DType,
) -> Built {
    let below = with_int(dag, BinaryOp::Lt, DType::Bool, value, 0, like);
    let one = put(below.dag, const_node(ConstValue::Int(1), dtype));
    let zero = put(one.dag, const_node(ConstValue::Int(0), dtype));
    let step = put(zero.dag, where_node(dtype, below.id, one.id, zero.id));
    put(step.dag, pair_node(BinaryOp::Add, dtype, number, step.id))
}

/// The quotient of a quick division: the product shifted, and one more where a
/// negative number was rounded down.
pub open spec fn quick_quotient(dag: Seq<NodeView>, id: usize) -> Built {
    let node = dag[id as int];
    let value = node.srcs[0];
    let like = node.srcs[1];
    let divisor = int_of(dag, like)->0 as int;
    let ends = bounds(dag, value)->0;
    let shift = shift_of(size_between(ends.0, ends.1), divisor);
    let product = with_int(
        dag,
        BinaryOp::Mul,
        node.dtype,
        value,
        factor_of(divisor, shift),
        like,
    );
    let down = with_int(
        product.dag,
        BinaryOp::Shr,
        node.dtype,
        product.id,
        shift as int,
        like,
    );
    if ends.0 >= 0 {
        down
    } else {
        rounded_up(down.dag, down.id, value, like, node.dtype)
    }
}

/// A division or a remainder without dividing: the quotient, or what the
/// quotient leaves of the value.
pub open spec fn undivided(dag: Seq<NodeView>, id: usize) -> Option<Built> {
    let node = dag[id as int];
    if !is_quick(dag, id) {
        None
    } else {
        let quotient = quick_quotient(dag, id);
        if node.op == Op::Binary(BinaryOp::CDiv) {
            Some(quotient)
        } else {
            let part = put(
                quotient.dag,
                pair_node(BinaryOp::Mul, node.dtype, quotient.id, node.srcs[1]),
            );
            Some(put(part.dag, pair_node(BinaryOp::Sub, node.dtype, node.srcs[0], part.id)))
        }
    }
}

/// What a quick division takes.
#[derive(Clone, Copy, Debug, PartialEq, Eq, Structural)]
pub struct Plan {
    pub factor: i64,
    pub shift: i64,
    pub may_be_negative: bool,
}

fn find_plan(graph: &Graph, id: usize) -> (plan: Option<Plan>)
    requires
        graph.wf(),
        id < graph@.len(),
        graph@[id as int].op is Binary,
    ensures
        match plan {
            Some(found) => {
                let node = graph@[id as int];
                let ends = bounds(graph@, node.srcs[0])->0;
                let divisor = int_of(graph@, node.srcs[1])->0 as int;
                let shift = shift_of(size_between(ends.0, ends.1), divisor);
                &&& is_quick(graph@, id)
                &&& found.factor == factor_of(divisor, shift)
                &&& found.shift == shift
                &&& found.may_be_negative == (ends.0 < 0)
            },
            None => !is_quick(graph@, id),
        },
{
    proof {
        lemma_arity(graph@, id);
    }
    match graph.op(id) {
        Op::Binary(BinaryOp::CDiv) | Op::Binary(BinaryOp::CMod) => {},
        _ => {
            return None;
        },
    }
    let value: usize = graph.source(id, 0);
    let divisor: i64 = match int_at(graph, graph.source(id, 1)) {
        Some(n) => n,
        None => {
            return None;
        },
    };
    if divisor <= 1 || find_exponent(divisor).is_some() {
        return None;
    }
    let (low, high) = match find_bounds(graph, value) {
        Some(ends) => ends,
        None => {
            return None;
        },
    };
    if low == i64::MIN {
        assert(size_between(low as int, high as int) > i64::MAX);
        return None;
    }
    let bound: i64 = if high < -low {
        -low
    } else {
        high
    };
    if bound < divisor {
        return None;
    }
    let magic = find_magic(bound as u64, divisor as u64);
    proof {
        assert(is_least(bound as int, divisor as int, magic.shift as nat));
        lemma_shift_of(bound as int, divisor as int, magic.shift as nat);
    }
    if magic.shift >= 64 || magic.factor > i64::MAX as u128 {
        return None;
    }
    let factor: i64 = magic.factor as i64;
    match find_extremes(graph.dtype(id)) {
        Some(ends) => {
            proof {
                lemma_product_in_wide(factor, low);
                lemma_product_in_wide(factor, high);
            }
            if ends.0 <= factor as i128 * low as i128 && factor as i128 * high as i128 <= ends.1 {
                Some(Plan { factor, shift: magic.shift as i64, may_be_negative: low < 0 })
            } else {
                None
            }
        },
        None => None,
    }
}

proof fn lemma_product_in_wide(a: i64, b: i64)
    ensures
        i128::MIN <= a * b <= i128::MAX,
{
    assert(-0x4000_0000_0000_0000_0000_0000_0000_0000 <= a * b
        <= 0x4000_0000_0000_0000_0000_0000_0000_0000) by (nonlinear_arith)
        requires
            -0x8000_0000_0000_0000 <= a <= 0x7fff_ffff_ffff_ffff,
            -0x8000_0000_0000_0000 <= b <= 0x7fff_ffff_ffff_ffff,
    ;
}

fn put_rounded_up(
    graph: &mut Graph,
    number: usize,
    value: usize,
    like: usize,
    dtype: DType,
) -> (id: usize)
    requires
        old(graph).wf(),
        number < old(graph)@.len(),
        value < old(graph)@.len(),
        like < old(graph)@.len(),
    ensures
        grown(old(graph)@, *final(graph), rounded_up(old(graph)@, number, value, like, dtype), id),
{
    let below: usize = put_with_int(graph, BinaryOp::Lt, DType::Bool, value, 0, like);
    let one: usize = put_int(graph, 1, dtype);
    let zero: usize = put_int(graph, 0, dtype);
    let step: usize = put_where(graph, dtype, below, one, zero);
    put_pair(graph, BinaryOp::Add, dtype, number, step)
}

fn put_quotient(graph: &mut Graph, id: usize, plan: Plan) -> (new: usize)
    requires
        old(graph).wf(),
        id < old(graph)@.len(),
        is_quick(old(graph)@, id),
        ({
            let node = old(graph)@[id as int];
            let ends = bounds(old(graph)@, node.srcs[0])->0;
            let divisor = int_of(old(graph)@, node.srcs[1])->0 as int;
            let shift = shift_of(size_between(ends.0, ends.1), divisor);
            &&& plan.factor == factor_of(divisor, shift)
            &&& plan.shift == shift
            &&& plan.may_be_negative == (ends.0 < 0)
        }),
    ensures
        grown(old(graph)@, *final(graph), quick_quotient(old(graph)@, id), new),
{
    let ghost dag = graph@;
    proof {
        lemma_arity(dag, id);
    }
    let value: usize = graph.source(id, 0);
    let like: usize = graph.source(id, 1);
    let dtype = graph.dtype(id);
    let product: usize = put_with_int(graph, BinaryOp::Mul, dtype, value, plan.factor, like);
    assert(graph@[like as int] == dag[like as int]);
    let down: usize = put_with_int(graph, BinaryOp::Shr, dtype, product, plan.shift, like);
    if !plan.may_be_negative {
        down
    } else {
        put_rounded_up(graph, down, value, like, dtype)
    }
}

/// Replaces a division by a constant that is no power of two, or its remainder,
/// by a multiplication and a shift. It is done only where it is not disabled.
pub fn divide_fast(graph: &mut Graph, id: usize, disabled: bool) -> (new: Option<usize>)
    requires
        old(graph).wf(),
        id < old(graph)@.len(),
    ensures
        disabled ==> new is None && final(graph).wf() && final(graph)@ == old(graph)@,
        !disabled ==> made(old(graph)@, *final(graph), undivided(old(graph)@, id), new),
{
    if disabled {
        return None;
    }
    let ghost dag = graph@;
    let op = graph.op(id);
    match op {
        Op::Binary(_) => {},
        _ => {
            return None;
        },
    }
    proof {
        lemma_arity(dag, id);
    }
    let plan = match find_plan(graph, id) {
        Some(plan) => plan,
        None => {
            return None;
        },
    };
    let value: usize = graph.source(id, 0);
    let like: usize = graph.source(id, 1);
    let dtype = graph.dtype(id);
    let quotient: usize = put_quotient(graph, id, plan);
    match op {
        Op::Binary(BinaryOp::CDiv) => Some(quotient),
        _ => {
            let part: usize = put_pair(graph, BinaryOp::Mul, dtype, quotient, like);
            Some(put_pair(graph, BinaryOp::Sub, dtype, value, part))
        },
    }
}

proof fn lemma_divisor_of_power(d: int, k: int, s: nat)
    requires
        d > 0,
        k > 0,
        d * k == pow2(s),
    ensures
        exists|n: nat| n <= s && #[trigger] pow2(n) == d,
    decreases s,
{
    if s == 0 {
        lemma2_to64();
        assert(d == 1) by (nonlinear_arith)
            requires
                d > 0,
                k > 0,
                d * k == 1,
        ;
        assert(pow2(0) == d);
    } else {
        lemma_pow2_unfold(s);
        let half = pow2((s - 1) as nat) as int;
        if d % 2 == 0 {
            let e = d / 2;
            assert(e * k == half) by (nonlinear_arith)
                requires
                    d == 2 * e,
                    d * k == 2 * half,
            ;
            lemma_divisor_of_power(e, k, (s - 1) as nat);
            let n = choose|n: nat| n <= s - 1 && #[trigger] pow2(n) == e;
            lemma_pow2_unfold((n + 1) as nat);
            assert(pow2((n + 1) as nat) == d);
        } else {
            let j = k / 2;
            assert(k == 2 * j) by {
                let a = d / 2;
                assert(d == 2 * a + 1);
                assert(2 * half == 2 * (a * k) + k) by (nonlinear_arith)
                    requires
                        d == 2 * a + 1,
                        d * k == 2 * half,
                ;
            }
            assert(d * j == half) by (nonlinear_arith)
                requires
                    k == 2 * j,
                    d * k == 2 * half,
            ;
            lemma_divisor_of_power(d, j, (s - 1) as nat);
            let n = choose|n: nat| n <= s - 1 && #[trigger] pow2(n) == d;
            assert(pow2(n) == d && n <= s);
        }
    }
}

proof fn lemma_lacks(divisor: i64, s: nat)
    requires
        divisor > 1,
        exponent(divisor) is None,
    ensures
        lack(pow2(s) as int, divisor as int) > 0,
{
    lemma_pow2_pos(s);
    let p = pow2(s) as int;
    let d = divisor as int;
    lemma_lack(p, d);
    if lack(p, d) == 0 {
        let k = p / d;
        assert(k > 0) by (nonlinear_arith)
            requires
                k * d == p,
                p > 0,
                d > 0,
        ;
        assert(d * k == p) by (nonlinear_arith)
            requires
                k * d == p,
        ;
        lemma_divisor_of_power(d, k, s);
        let n = choose|n: nat| n <= s && #[trigger] pow2(n) == d;
        lemma2_to64();
        lemma2_to64_rest();
        if n == 0 {
            assert(pow2(0) == 1);
        } else if n > 62 {
            if n > 63 {
                lemma_pow2_strictly_increases(63, n);
            }
            assert(pow2(63) == 0x8000_0000_0000_0000);
        }
        assert(1 <= n <= 62 && pow2(n) == divisor);
    }
}

proof fn lemma_quick_number(low: int, high: int, divisor: i64, x: int)
    requires
        divisor > 1,
        exponent(divisor) is None,
        low <= x <= high,
        divisor <= size_between(low, high) <= i64::MAX,
        is_least(
            size_between(low, high),
            divisor as int,
            shift_of(size_between(low, high), divisor as int),
        ),
    ensures
        ({
            let shift = shift_of(size_between(low, high), divisor as int);
            let product = x * factor_of(divisor as int, shift);
            product / pow2(shift) as int + (if x < 0 {
                1int
            } else {
                0int
            }) == truncated_div(x, divisor as int)
        }),
{
    let d = divisor as int;
    let bound = size_between(low, high);
    let s = shift_of(bound, d);
    let p = pow2(s) as int;
    let m = factor_of(d, s);
    lemma_pow2_pos(s);
    lemma_lacks(divisor, s);
    if x >= 0 {
        lemma_magic_divides(bound, d, s, x);
    } else {
        let y = -x;
        lemma_magic_divides(bound, d, s, y);
        let q = y / d;
        let rest = (y * m) % p;
        assert(y * m == q * p + rest && 0 < rest < p) by (nonlinear_arith)
            requires
                p > 0,
                (y * m) / p == q,
                rest == (y * m) % p,
                rest > 0,
        ;
        assert(x * m == -(y * m)) by (nonlinear_arith)
            requires
                y == -x,
        ;
        assert((x * m) / p == -q - 1) by (nonlinear_arith)
            requires
                x * m == -(q * p + rest),
                0 < rest < p,
        ;
    }
}

proof fn lemma_least_exists(bound: u64, divisor: u64)
    requires
        bound <= i64::MAX,
        0 < divisor <= bound,
    ensures
        is_least(bound as int, divisor as int, shift_of(bound as int, divisor as int)),
{
    let b = bound as int;
    let d = divisor as int;
    lemma_top(b, d, 0);
    let s: nat = 126;
    lemma2_to64_rest();
    lemma_pow2_adds(63, 63);
    assert(0x8000_0000_0000_0000 * 0x8000_0000_0000_0000
        == 0x4000_0000_0000_0000_0000_0000_0000_0000int);
    lemma_lack(pow2(s) as int, d);
    let e = lack(pow2(s) as int, d);
    lemma_product_fits(top(b, d) as u128, e as u128, divisor as u128, bound as u128);
    assert(is_enough(b, d, s));
    lemma_least_below(b, d, s);
}

proof fn lemma_least_below(bound: int, divisor: int, s: nat)
    requires
        is_enough(bound, divisor, s),
    ensures
        is_least(bound, divisor, shift_of(bound, divisor)),
    decreases s,
{
    if forall|t: nat| t < s ==> !(#[trigger] is_enough(bound, divisor, t)) {
        assert(is_least(bound, divisor, s));
    } else {
        let t = choose|t: nat| t < s && #[trigger] is_enough(bound, divisor, t);
        lemma_least_below(bound, divisor, t);
    }
}

proof fn lemma_rounded_up_grows(
    dag: Seq<NodeView>,
    number: usize,
    value: usize,
    like: usize,
    dtype: DType,
)
    ensures
        dag.len() <= rounded_up(dag, number, value, like, dtype).dag.len(),
{
    let below = with_int(dag, BinaryOp::Lt, DType::Bool, value, 0, like);
    let one_node = const_node(ConstValue::Int(1), dtype);
    let one = put(below.dag, one_node);
    let zero_node = const_node(ConstValue::Int(0), dtype);
    let zero = put(one.dag, zero_node);
    let step_node = where_node(dtype, below.id, one.id, zero.id);
    let step = put(zero.dag, step_node);
    lemma_with_int_grows(dag, BinaryOp::Lt, DType::Bool, value, 0, like);
    lemma_interned_keeps(below.dag, one_node);
    lemma_interned_keeps(one.dag, zero_node);
    lemma_interned_keeps(zero.dag, step_node);
    lemma_interned_keeps(step.dag, pair_node(BinaryOp::Add, dtype, number, step.id));
}

proof fn lemma_rounded_up(
    dag: Seq<NodeView>,
    number: usize,
    value: usize,
    like: usize,
    dtype: DType,
    at: spec_fn(Op) -> int,
)
    requires
        dag_wf(dag),
        number < dag.len(),
        value < dag.len(),
        like < dag.len(),
        rounded_up(dag, number, value, like, dtype).dag.len() <= usize::MAX,
    ensures
        ({
            let new = rounded_up(dag, number, value, like, dtype);
            &&& dag_wf(new.dag)
            &&& extends(dag, new.dag)
            &&& new.id < new.dag.len()
            &&& meaning(new.dag, new.id, at) == match (
                meaning(dag, number, at),
                meaning(dag, value, at),
            ) {
                (Some(n), Some(x)) => Some(
                    n + if x < 0 {
                        1int
                    } else {
                        0int
                    },
                ),
                _ => None,
            }
        }),
{
    let below = with_int(dag, BinaryOp::Lt, DType::Bool, value, 0, like);
    let one_node = const_node(ConstValue::Int(1), dtype);
    let one = put(below.dag, one_node);
    let zero_node = const_node(ConstValue::Int(0), dtype);
    let zero = put(one.dag, zero_node);
    let step_node = where_node(dtype, below.id, one.id, zero.id);
    let step = put(zero.dag, step_node);
    let last = pair_node(BinaryOp::Add, dtype, number, step.id);
    lemma_interned_keeps(below.dag, one_node);
    lemma_interned_keeps(one.dag, zero_node);
    lemma_interned_keeps(zero.dag, step_node);
    lemma_interned_keeps(step.dag, last);
    lemma_with_int(dag, BinaryOp::Lt, DType::Bool, value, 0, like, at);
    lemma_put_meaning(below.dag, one_node, at);
    lemma_put_meaning(one.dag, zero_node, at);
    lemma_meaning_extends(below.dag, zero.dag, below.id, at);
    lemma_meaning_extends(one.dag, zero.dag, one.id, at);
    lemma_put_meaning(zero.dag, step_node, at);
    lemma_meaning_extends(dag, step.dag, number, at);
    lemma_put_meaning(step.dag, last, at);
}

proof fn lemma_quick_quotient(dag: Seq<NodeView>, id: usize, at: spec_fn(Op) -> int)
    requires
        dag_wf(dag),
        id < dag.len(),
        admits(dag, id, at),
        is_quick(dag, id),
        quick_quotient(dag, id).dag.len() <= usize::MAX,
    ensures
        ({
            let new = quick_quotient(dag, id);
            &&& dag_wf(new.dag)
            &&& extends(dag, new.dag)
            &&& new.id < new.dag.len()
            &&& meaning(new.dag, new.id, at) == match meaning(dag, dag[id as int].srcs[0], at) {
                Some(x) => Some(
                    truncated_div(x, int_of(dag, dag[id as int].srcs[1])->0 as int),
                ),
                None => None,
            }
        }),
{
    let node = dag[id as int];
    lemma_arity(dag, id);
    assert(dag[id as int].srcs[0] < id && dag[id as int].srcs[1] < id);
    let value = node.srcs[0];
    let like = node.srcs[1];
    let divisor = int_of(dag, like)->0;
    let ends = bounds(dag, value)->0;
    let bound = size_between(ends.0, ends.1);
    let shift = shift_of(bound, divisor as int);
    let factor = factor_of(divisor as int, shift);
    lemma_pow2_pos(shift);
    lemma_lack(pow2(shift) as int, divisor as int);
    assert(factor >= 0) by (nonlinear_arith)
        requires
            factor * divisor >= 0,
            divisor > 0,
    ;
    let product = with_int(dag, BinaryOp::Mul, node.dtype, value, factor, like);
    let down = with_int(product.dag, BinaryOp::Shr, node.dtype, product.id, shift as int, like);
    lemma_with_int_grows(dag, BinaryOp::Mul, node.dtype, value, factor, like);
    lemma_with_int_grows(product.dag, BinaryOp::Shr, node.dtype, product.id, shift as int, like);
    lemma_rounded_up_grows(down.dag, down.id, value, like, node.dtype);
    lemma_with_int(dag, BinaryOp::Mul, node.dtype, value, factor, like, at);
    lemma_with_int(product.dag, BinaryOp::Shr, node.dtype, product.id, shift as int, like, at);
    match meaning(dag, value, at) {
        Some(x) => {
            assert(admits(dag, value, at));
            lemma_bounds_hold(dag, value, at);
            lemma_least_exists(bound as u64, divisor as u64);
            lemma_quick_number(ends.0, ends.1, divisor, x);
        },
        None => {},
    }
    if ends.0 < 0 {
        lemma_meaning_extends(dag, down.dag, value, at);
        lemma_rounded_up(down.dag, down.id, value, like, node.dtype, at);
    }
}

/// A division without dividing means what the division means.
pub proof fn lemma_undivided_means(dag: Seq<NodeView>, id: usize, at: spec_fn(Op) -> int)
    requires
        dag_wf(dag),
        id < dag.len(),
        admits(dag, id, at),
        undivided(dag, id) is Some,
        undivided(dag, id)->0.dag.len() <= usize::MAX,
    ensures
        meaning(undivided(dag, id)->0.dag, undivided(dag, id)->0.id, at) == meaning(dag, id, at),
{
    let node = dag[id as int];
    lemma_arity(dag, id);
    assert(dag[id as int].srcs[0] < id && dag[id as int].srcs[1] < id);
    let value = node.srcs[0];
    let like = node.srcs[1];
    let divisor = int_of(dag, like)->0 as int;
    let quotient = quick_quotient(dag, id);
    let part_node = pair_node(BinaryOp::Mul, node.dtype, quotient.id, like);
    let part = put(quotient.dag, part_node);
    let last = pair_node(BinaryOp::Sub, node.dtype, value, part.id);
    lemma_interned_keeps(quotient.dag, part_node);
    lemma_interned_keeps(part.dag, last);
    lemma_meaning(dag, id, at);
    lemma_meaning(dag, like, at);
    lemma_quick_quotient(dag, id, at);
    if node.op == Op::Binary(BinaryOp::CMod) {
        lemma_meaning_extends(dag, quotient.dag, like, at);
        lemma_put_meaning(quotient.dag, part_node, at);
        lemma_meaning_extends(dag, part.dag, value, at);
        lemma_put_meaning(part.dag, last, at);
        match meaning(dag, value, at) {
            Some(x) => {
                let q = truncated_div(x, divisor);
                assert(q * divisor == divisor * q) by (nonlinear_arith);
            },
            None => {},
        }
    }
}

/// Whether the bits of a float are those of a number, neither infinite nor
/// undefined.
pub open spec fn is_finite_float(bits: u64) -> bool {
    bits / 0x10_0000_0000_0000 % 0x800 != 0x7ff
}

/// The bits of the constant that a float is divided by.
pub open spec fn float_divisor(dag: Seq<NodeView>, id: usize) -> Option<u64> {
    let node = dag[id as int];
    if node.op == Op::Binary(BinaryOp::Fdiv) {
        match dag[node.srcs[1] as int].op {
            Op::Const(ConstValue::Float(bits)) => Some(bits),
            _ => None,
        }
    } else {
        None
    }
}

/// A division of floats by a constant as a multiplication by its reciprocal,
/// which has to be a number.
pub open spec fn by_reciprocal(dag: Seq<NodeView>, id: usize, reciprocal: u64) -> Option<Built> {
    let node = dag[id as int];
    if float_divisor(dag, id) is Some && is_finite_float(reciprocal) {
        let factor = put(
            dag,
            const_node(ConstValue::Float(reciprocal), dag[node.srcs[1] as int].dtype),
        );
        Some(put(factor.dag, pair_node(BinaryOp::Mul, node.dtype, node.srcs[0], factor.id)))
    } else {
        None
    }
}

/// The bits of the constant that a float is divided by, if it is.
pub fn find_float_divisor(graph: &Graph, id: usize) -> (bits: Option<u64>)
    requires
        graph.wf(),
        id < graph@.len(),
    ensures
        bits == float_divisor(graph@, id),
{
    proof {
        lemma_arity(graph@, id);
    }
    match graph.op(id) {
        Op::Binary(BinaryOp::Fdiv) => match graph.op(graph.source(id, 1)) {
            Op::Const(ConstValue::Float(bits)) => Some(bits),
            _ => None,
        },
        _ => None,
    }
}

/// Replaces a division of floats by a constant by a multiplication by its
/// reciprocal, which the caller gives. One that is no number is refused, so that
/// a division by zero stays what it is.
pub fn multiply_by_reciprocal(graph: &mut Graph, id: usize, reciprocal: u64) -> (new: Option<usize>)
    requires
        old(graph).wf(),
        id < old(graph)@.len(),
    ensures
        made(old(graph)@, *final(graph), by_reciprocal(old(graph)@, id, reciprocal), new),
{
    if find_float_divisor(graph, id).is_none() || reciprocal / 0x10_0000_0000_0000 % 0x800 == 0x7ff {
        return None;
    }
    proof {
        lemma_arity(graph@, id);
    }
    let value: usize = graph.source(id, 0);
    let divisor: usize = graph.source(id, 1);
    let kind = graph.dtype(divisor);
    let dtype = graph.dtype(id);
    let factor: usize = graph.constant(ConstValue::Float(reciprocal), kind);
    Some(put_pair(graph, BinaryOp::Mul, dtype, value, factor))
}

} // verus!
