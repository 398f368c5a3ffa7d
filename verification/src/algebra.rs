//! Constants that an operation leaves its other operand alone with, constants
//! that decide an operation by themselves, and shapes.

use vstd::prelude::*;

use crate::args::SIGN;
use crate::builders::ONE;
use crate::fold::{binary_number, word, word_count};
use crate::graph::{BinaryOp, ConstValue};

verus! {

/// Whether a constant is a zero, of either sign where it is a float.
pub open spec fn is_zero(value: ConstValue) -> bool {
    match value {
        ConstValue::Int(n) => n == 0,
        ConstValue::Float(bits) => bits == 0 || bits == SIGN,
        _ => false,
    }
}

/// Whether a constant is one.
pub open spec fn is_one(value: ConstValue) -> bool {
    match value {
        ConstValue::Int(n) => n == 1,
        ConstValue::Float(bits) => bits == ONE,
        _ => false,
    }
}

/// Whether an operation with a constant on one side is its other operand.
/// Subtraction and division have such a constant on the right only.
pub open spec fn is_identity(value: ConstValue, op: BinaryOp, right: bool) -> bool {
    match op {
        BinaryOp::Add => is_zero(value),
        BinaryOp::Or | BinaryOp::Xor => value == ConstValue::Int(0),
        BinaryOp::Sub => right && is_zero(value),
        BinaryOp::Mul => is_one(value),
        BinaryOp::FloorDiv | BinaryOp::Fdiv => right && is_one(value),
        BinaryOp::And => value == ConstValue::Int(-1i64),
        _ => false,
    }
}

/// Whether an operation with a constant is that constant.
pub open spec fn is_absorbing(value: ConstValue, op: BinaryOp) -> bool {
    match op {
        BinaryOp::Mul => is_zero(value),
        BinaryOp::And => value == ConstValue::Int(0),
        _ => false,
    }
}

fn zero_const(value: ConstValue) -> (r: bool)
    ensures
        r == is_zero(value),
{
    match value {
        ConstValue::Int(n) => n == 0,
        ConstValue::Float(bits) => bits == 0 || bits == SIGN,
        _ => false,
    }
}

fn one_const(value: ConstValue) -> (r: bool)
    ensures
        r == is_one(value),
{
    match value {
        ConstValue::Int(n) => n == 1,
        ConstValue::Float(bits) => bits == ONE,
        _ => false,
    }
}

/// Whether an operation with a constant on one side is its other operand.
pub fn is_identity_value(value: ConstValue, op: BinaryOp, right: bool) -> (r: bool)
    ensures
        r == is_identity(value, op, right),
{
    match op {
        BinaryOp::Add => zero_const(value),
        BinaryOp::Or | BinaryOp::Xor => match value {
            ConstValue::Int(n) => n == 0,
            _ => false,
        },
        BinaryOp::Sub => right && zero_const(value),
        BinaryOp::Mul => one_const(value),
        BinaryOp::FloorDiv | BinaryOp::Fdiv => right && one_const(value),
        BinaryOp::And => match value {
            ConstValue::Int(n) => n == -1,
            _ => false,
        },
        _ => false,
    }
}

/// Whether an operation with a constant is that constant.
pub fn is_zero_value(value: ConstValue, op: BinaryOp) -> (r: bool)
    ensures
        r == is_absorbing(value, op),
{
    match op {
        BinaryOp::Mul => zero_const(value),
        BinaryOp::And => match value {
            ConstValue::Int(n) => n == 0,
            _ => false,
        },
        _ => false,
    }
}

/// An operation with its integer identity gives the other operand, as a word.
pub proof fn lemma_identity_is_neutral(n: i64, op: BinaryOp, right: bool, x: int)
    requires
        is_identity(ConstValue::Int(n), op, right),
        op != BinaryOp::Fdiv,
    ensures
        ({
            let result = if right {
                binary_number(op, x, n as int)
            } else {
                binary_number(op, n as int, x)
            };
            result matches Some(y) && word(y) == word(x)
        }),
{
    let w = word(x);
    vstd::arithmetic::div_mod::lemma_small_mod(w as nat, word_count() as nat);
    assert(word(0) == 0u64) by {
        vstd::arithmetic::div_mod::lemma_small_mod(0, word_count() as nat);
    }
    assert(word(-1) == 0xffff_ffff_ffff_ffffu64) by {
        vstd::arithmetic::div_mod::lemma_mod_multiples_vanish(1, -1, word_count());
        vstd::arithmetic::div_mod::lemma_small_mod(
            0xffff_ffff_ffff_ffff,
            word_count() as nat,
        );
    }
    assert(w | 0 == w && 0 | w == w && w ^ 0 == w && 0 ^ w == w && w & 0xffff_ffff_ffff_ffff == w
        && 0xffff_ffff_ffff_ffff & w == w) by (bit_vector);
    assert(word(w as int) == w);
    let m = n as int;
    if m == 1 {
        assert(x * m == x && m * x == x && x / m == x) by (nonlinear_arith)
            requires
                m == 1,
        ;
    }
}

/// An operation with its absorbing integer is zero.
pub proof fn lemma_absorbing_decides(n: i64, op: BinaryOp, x: int)
    requires
        is_absorbing(ConstValue::Int(n), op),
    ensures
        binary_number(op, x, n as int) == Some(0int),
        binary_number(op, n as int, x) == Some(0int),
{
    let w = word(x);
    assert(word(0) == 0u64) by {
        vstd::arithmetic::div_mod::lemma_small_mod(0, word_count() as nat);
    }
    assert(w & 0 == 0 && 0 & w == 0) by (bit_vector);
    let m = n as int;
    assert(x * m == 0 && m * x == 0) by (nonlinear_arith)
        requires
            m == 0,
    ;
}

/// The number of elements of a shape: the product of its dimensions.
pub open spec fn elements(dims: Seq<usize>) -> int
    decreases dims.len(),
{
    if dims.len() == 0 {
        1
    } else {
        elements(dims.drop_last()) * dims.last()
    }
}

/// No dimension is zero.
pub open spec fn no_zero(dims: Seq<usize>) -> bool {
    forall|i: int| 0 <= i < dims.len() ==> (#[trigger] dims[i]) > 0
}

proof fn lemma_elements_grow(dims: Seq<usize>, n: int)
    requires
        no_zero(dims),
        0 <= n <= dims.len(),
    ensures
        1 <= elements(dims.take(n)) <= elements(dims),
    decreases dims.len(),
{
    if dims.len() == 0 {
        assert(dims.take(n) =~= dims);
    } else {
        let rest = dims.drop_last();
        assert(no_zero(rest)) by {
            assert forall|i: int| 0 <= i < rest.len() implies (#[trigger] rest[i]) > 0 by {
                assert(rest[i] == dims[i]);
            }
        }
        assert(dims[dims.len() - 1] > 0);
        if n == dims.len() {
            lemma_elements_grow(rest, rest.len() as int);
            assert(rest.take(rest.len() as int) =~= rest);
            assert(dims.take(n) =~= dims);
        } else {
            lemma_elements_grow(rest, n);
            assert(rest.take(n) =~= dims.take(n));
        }
        let whole = elements(rest);
        let last = dims.last() as int;
        assert(whole * last >= whole) by (nonlinear_arith)
            requires
                whole >= 1,
                last >= 1,
        ;
        lemma_elements_grow(rest, rest.len() as int);
        assert(rest.take(rest.len() as int) =~= rest);
    }
}

/// A shape has no negative number of elements.
pub proof fn lemma_elements_not_negative(dims: Seq<usize>)
    ensures
        elements(dims) >= 0,
    decreases dims.len(),
{
    if dims.len() > 0 {
        lemma_elements_not_negative(dims.drop_last());
        let rest = elements(dims.drop_last());
        let last = dims.last() as int;
        assert(rest * last >= 0) by (nonlinear_arith)
            requires
                rest >= 0,
                last >= 0,
        ;
    }
}

proof fn lemma_no_elements(dims: Seq<usize>, k: int)
    requires
        0 <= k < dims.len(),
        dims[k] == 0,
    ensures
        elements(dims) == 0,
    decreases dims.len(),
{
    let rest = elements(dims.drop_last());
    let last = dims.last() as int;
    if k < dims.len() - 1 {
        lemma_no_elements(dims.drop_last(), k);
    }
    assert(rest * last == 0) by (nonlinear_arith)
        requires
            rest == 0 || last == 0,
    ;
}

/// The number of elements of a shape, if it fits.
pub fn element_count(dims: &Vec<usize>) -> (count: Option<usize>)
    ensures
        match count {
            Some(n) => n == elements(dims@),
            None => elements(dims@) > usize::MAX,
        },
{
    let mut at: usize = 0;
    while at < dims.len()
        invariant
            at <= dims@.len(),
            forall|i: int| 0 <= i < at ==> (#[trigger] dims@[i]) > 0,
        decreases dims@.len() - at,
    {
        if dims[at] == 0 {
            proof {
                lemma_no_elements(dims@, at as int);
            }
            return Some(0);
        }
        at += 1;
    }
    let mut product: usize = 1;
    let mut k: usize = 0;
    assert(dims@.take(0) =~= Seq::<usize>::empty());
    while k < dims.len()
        invariant
            no_zero(dims@),
            k <= dims@.len(),
            product == elements(dims@.take(k as int)),
        decreases dims@.len() - k,
    {
        proof {
            assert(dims@.take(k + 1).drop_last() =~= dims@.take(k as int));
            assert(dims@.take(k + 1).last() == dims@[k as int]);
            lemma_elements_grow(dims@, k + 1);
        }
        match product.checked_mul(dims[k]) {
            Some(more) => {
                product = more;
            },
            None => {
                return None;
            },
        }
        k += 1;
    }
    assert(dims@.take(dims@.len() as int) =~= dims@);
    Some(product)
}

/// Whether a number of elements can be laid out in a shape: it has no empty
/// dimension, and its dimensions multiply to that number.
pub fn stack_with_shape(count: usize, dims: &Vec<usize>) -> (fits: bool)
    ensures
        fits == (no_zero(dims@) && elements(dims@) == count),
{
    let mut at: usize = 0;
    while at < dims.len()
        invariant
            at <= dims@.len(),
            forall|i: int| 0 <= i < at ==> (#[trigger] dims@[i]) > 0,
        decreases dims@.len() - at,
    {
        if dims[at] == 0 {
            assert(!no_zero(dims@));
            return false;
        }
        at += 1;
    }
    match element_count(dims) {
        Some(n) => n == count,
        None => false,
    }
}

/// The product of the known dimensions of a shape, if all are known.
pub open spec fn known_elements(dims: Seq<Option<usize>>, n: nat) -> Option<int>
    decreases n,
{
    if n == 0 {
        Some(1)
    } else {
        match (known_elements(dims, (n - 1) as nat), dims[n - 1]) {
            (Some(product), Some(dim)) => Some(product * dim),
            _ => None,
        }
    }
}

/// The number of scalars that a value carries: the product of its shape where
/// that is known, and otherwise its vector width.
pub open spec fn scalar_count(shape: Option<Seq<Option<usize>>>, vector: usize) -> int {
    match shape {
        Some(dims) => match known_elements(dims, dims.len()) {
            Some(product) => product,
            None => vector as int,
        },
        None => vector as int,
    }
}

/// Whether a value carries an expected number of scalars.
pub fn assert_vcount(
    shape: Option<&Vec<Option<usize>>>,
    vector: usize,
    expected: usize,
) -> (matches: bool)
    requires
        shape matches Some(dims) ==> forall|n: nat|
            n <= dims@.len() ==> match #[trigger] known_elements(dims@, n) {
                Some(product) => product <= usize::MAX,
                None => true,
            },
    ensures
        matches == (scalar_count(
            match shape {
                Some(dims) => Some(dims@),
                None => None,
            },
            vector,
        ) == expected),
{
    match shape {
        None => vector == expected,
        Some(dims) => {
            let mut product: usize = 1;
            let mut k: usize = 0;
            while k < dims.len()
                invariant
                    forall|n: nat|
                        n <= dims@.len() ==> match #[trigger] known_elements(dims@, n) {
                            Some(product) => product <= usize::MAX,
                            None => true,
                        },
                    k <= dims@.len(),
                    known_elements(dims@, k as nat) == Some(product as int),
                    shape == Some(dims),
                decreases dims@.len() - k,
            {
                match dims[k] {
                    Some(dim) => {
                        assert(known_elements(dims@, (k + 1) as nat) == Some(product * dim));
                        assert(product * dim >= 0) by (nonlinear_arith)
                            requires
                                product >= 0,
                                dim >= 0,
                        ;
                        product = product * dim;
                    },
                    None => {
                        proof {
                            assert(known_elements(dims@, (k + 1) as nat) is None);
                            lemma_unknown_stays(dims@, (k + 1) as nat, dims@.len());
                        }
                        return vector == expected;
                    },
                }
                k += 1;
            }
            product == expected
        },
    }
}

proof fn lemma_unknown_stays(dims: Seq<Option<usize>>, k: nat, n: nat)
    requires
        k <= n,
        known_elements(dims, k) is None,
    ensures
        known_elements(dims, n) is None,
    decreases n,
{
    if k < n {
        lemma_unknown_stays(dims, k, (n - 1) as nat);
    }
}

} // verus!
