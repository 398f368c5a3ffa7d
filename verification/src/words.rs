//! 64-bit arithmetic on pairs of 32-bit words, for targets without 64-bit integers.

use vstd::arithmetic::div_mod::{
    lemma_add_mod_noop, lemma_fundamental_div_mod, lemma_fundamental_div_mod_converse,
    lemma_mod_multiples_vanish, lemma_mul_mod_noop, lemma_small_mod, lemma_sub_mod_noop,
};
use vstd::arithmetic::power2::{
    lemma2_to64, lemma2_to64_rest, lemma_pow2_adds, lemma_pow2_pos, lemma_pow2_unfold, pow2,
};
use vstd::prelude::*;

use crate::fold::{binary_number, truncated_div, truncated_mod, word, word_count};
use crate::graph::BinaryOp;

verus! {

/// The two words of a 64-bit number.
#[derive(Clone, Copy, Debug, PartialEq, Eq, Structural)]
pub struct Words {
    pub low: u32,
    pub high: u32,
}

/// The number of 32-bit words.
pub open spec fn half_count() -> int {
    0x1_0000_0000
}

impl View for Words {
    type V = int;

    open spec fn view(&self) -> int {
        self.high * half_count() + self.low
    }
}

impl Words {
    /// The words of a number.
    pub fn split(n: u64) -> (words: Words)
        ensures
            words@ == n,
    {
        Words { low: (n % 0x1_0000_0000) as u32, high: (n / 0x1_0000_0000) as u32 }
    }

    /// The number of two words.
    pub fn join(self) -> (n: u64)
        ensures
            n == self@,
    {
        self.high as u64 * 0x1_0000_0000 + self.low as u64
    }
}

fn wrap_add(a: u32, b: u32) -> (sum: (u32, bool))
    ensures
        sum.0 + if sum.1 {
            half_count()
        } else {
            0
        } == a + b,
{
    if a <= 0xffff_ffff - b {
        (a + b, false)
    } else {
        (a - (0xffff_ffff - b) - 1, true)
    }
}

fn wrap_sub(a: u32, b: u32) -> (difference: (u32, bool))
    ensures
        difference.0 - if difference.1 {
            half_count()
        } else {
            0
        } == a - b,
{
    if a >= b {
        (a - b, false)
    } else {
        (0xffff_ffff - (b - a) + 1, true)
    }
}

/// The sum, and whether it carries out of the upper word.
fn add_carry(a: Words, b: Words) -> (sum: (Words, bool))
    ensures
        sum.0@ + if sum.1 {
            word_count()
        } else {
            0
        } == a@ + b@,
{
    let (low, carry) = wrap_add(a.low, b.low);
    let (high, out) = wrap_add(a.high, b.high);
    if carry {
        let (high, more) = wrap_add(high, 1);
        (Words { low, high }, out || more)
    } else {
        (Words { low, high }, out)
    }
}

/// The difference, and whether it borrows from above the upper word.
fn sub_borrow(a: Words, b: Words) -> (difference: (Words, bool))
    ensures
        difference.0@ - if difference.1 {
            word_count()
        } else {
            0
        } == a@ - b@,
{
    let (low, borrow) = wrap_sub(a.low, b.low);
    let (high, out) = wrap_sub(a.high, b.high);
    if borrow {
        let (high, more) = wrap_sub(high, 1);
        (Words { low, high }, out || more)
    } else {
        (Words { low, high }, out)
    }
}

/// The sum of two numbers; the low word carries into the high one.
pub fn add_words(a: Words, b: Words) -> (sum: Words)
    ensures
        sum@ == (a@ + b@) % word_count(),
{
    let (sum, carry) = add_carry(a, b);
    proof {
        lemma_mod_multiples_vanish(
            if carry {
                1
            } else {
                0
            },
            sum@,
            word_count(),
        );
        lemma_small_mod(sum@ as nat, word_count() as nat);
    }
    sum
}

/// The difference of two numbers; the low word borrows from the high one.
pub fn sub_words(a: Words, b: Words) -> (difference: Words)
    ensures
        difference@ == (a@ - b@) % word_count(),
{
    let (difference, borrow) = sub_borrow(a, b);
    proof {
        lemma_mod_multiples_vanish(
            if borrow {
                -1
            } else {
                0
            },
            difference@,
            word_count(),
        );
        lemma_small_mod(difference@ as nat, word_count() as nat);
    }
    difference
}

pub(crate) proof fn lemma_bits_by_word(a: u64, b: u64, al: u32, ah: u32, bl: u32, bh: u32)
    requires
        a == ah * 0x1_0000_0000 + al,
        b == bh * 0x1_0000_0000 + bl,
    ensures
        a & b == (ah & bh) * 0x1_0000_0000 + (al & bl),
        a | b == (ah | bh) * 0x1_0000_0000 + (al | bl),
        a ^ b == (ah ^ bh) * 0x1_0000_0000 + (al ^ bl),
{
    assert(a & b == (ah & bh) * 0x1_0000_0000 + (al & bl)) by (bit_vector)
        requires
            a == ah * 0x1_0000_0000 + al,
            b == bh * 0x1_0000_0000 + bl,
    ;
    assert(a | b == (ah | bh) * 0x1_0000_0000 + (al | bl)) by (bit_vector)
        requires
            a == ah * 0x1_0000_0000 + al,
            b == bh * 0x1_0000_0000 + bl,
    ;
    assert(a ^ b == (ah ^ bh) * 0x1_0000_0000 + (al ^ bl)) by (bit_vector)
        requires
            a == ah * 0x1_0000_0000 + al,
            b == bh * 0x1_0000_0000 + bl,
    ;
}

/// The conjunction of two numbers, bit by bit.
pub fn and_words(a: Words, b: Words) -> (both: Words)
    ensures
        both@ == (a@ as u64) & (b@ as u64),
{
    proof {
        lemma_bits_by_word(a@ as u64, b@ as u64, a.low, a.high, b.low, b.high);
    }
    Words { low: a.low & b.low, high: a.high & b.high }
}

/// The disjunction of two numbers, bit by bit.
pub fn or_words(a: Words, b: Words) -> (either: Words)
    ensures
        either@ == (a@ as u64) | (b@ as u64),
{
    proof {
        lemma_bits_by_word(a@ as u64, b@ as u64, a.low, a.high, b.low, b.high);
    }
    Words { low: a.low | b.low, high: a.high | b.high }
}

/// The bits that differ in two numbers.
pub fn xor_words(a: Words, b: Words) -> (one: Words)
    ensures
        one@ == (a@ as u64) ^ (b@ as u64),
{
    proof {
        lemma_bits_by_word(a@ as u64, b@ as u64, a.low, a.high, b.low, b.high);
    }
    Words { low: a.low ^ b.low, high: a.high ^ b.high }
}

proof fn lemma_product_bound(x: int, y: int, m: int)
    requires
        0 <= x <= m,
        0 <= y <= m,
    ensures
        0 <= x * y <= m * m,
{
    assert(0 <= x * y <= m * m) by (nonlinear_arith)
        requires
            0 <= x <= m,
            0 <= y <= m,
    ;
}

/// A product of two words, from the products of their halves.
fn mul_halves(x: u32, y: u32) -> (product: Words)
    ensures
        product@ == x * y,
{
    let (x0, x1): (u32, u32) = (x % 0x1_0000, x / 0x1_0000);
    let (y0, y1): (u32, u32) = (y % 0x1_0000, y / 0x1_0000);
    proof {
        lemma_product_bound(x0 as int, y0 as int, 0xffff);
        lemma_product_bound(x0 as int, y1 as int, 0xffff);
        lemma_product_bound(x1 as int, y0 as int, 0xffff);
        lemma_product_bound(x1 as int, y1 as int, 0xffff);
        lemma_product_bound(x as int, y as int, 0xffff_ffff);
        assert(x * y == (x1 * y1) * 0x1_0000_0000 + (x0 * y1 + x1 * y0) * 0x1_0000 + x0 * y0)
            by (nonlinear_arith)
            requires
                x == x1 * 0x1_0000 + x0,
                y == y1 * 0x1_0000 + y0,
        ;
    }
    let p00: u32 = x0 * y0;
    let p01: u32 = x0 * y1;
    let p10: u32 = x1 * y0;
    let p11: u32 = x1 * y1;
    let mid: u32 = p00 / 0x1_0000 + p01 % 0x1_0000 + p10 % 0x1_0000;
    let low: u32 = (mid % 0x1_0000) * 0x1_0000 + p00 % 0x1_0000;
    let ghost whole = p11 + p01 / 0x1_0000 + p10 / 0x1_0000 + mid / 0x1_0000;
    assert(whole * 0x1_0000_0000 + low == x * y);
    let high: u32 = p11 + p01 / 0x1_0000 + p10 / 0x1_0000 + mid / 0x1_0000;
    Words { low, high }
}

/// The product of two numbers: the words crosswise go into the high word.
pub fn mul_words(a: Words, b: Words) -> (product: Words)
    ensures
        product@ == (a@ * b@) % word_count(),
{
    let base = mul_halves(a.low, b.low);
    let left = mul_halves(a.low, b.high);
    let right = mul_halves(a.high, b.low);
    let (cross, _) = wrap_add(left.low, right.low);
    let (high, _) = wrap_add(base.high, cross);
    let product = Words { low: base.low, high };
    proof {
        let c = half_count();
        let k = a.high * b.high;
        let (l, r) = (a.low * b.high, a.high * b.low);
        assert(a@ * b@ == k * (c * c) + (l + r) * c + a.low * b.low) by (nonlinear_arith)
            requires
                a@ == a.high * c + a.low,
                b@ == b.high * c + b.low,
                k == a.high * b.high,
                l == a.low * b.high,
                r == a.high * b.low,
        ;
        // What the wrapped sums leave out is a multiple of a whole word.
        let rest = a@ * b@ - product@;
        let q1 = left.high + right.high;
        let carried = left.low + right.low - cross;
        let again = base.high + cross - high;
        assert(rest == (k + q1) * word_count() + (carried + again) * c) by (nonlinear_arith)
            requires
                a@ * b@ == k * (c * c) + (l + r) * c + a.low * b.low,
                l == left.high * c + left.low,
                r == right.high * c + right.low,
                a.low * b.low == base.high * c + base.low,
                product@ == high * c + base.low,
                rest == a@ * b@ - product@,
                q1 == left.high + right.high,
                carried == left.low + right.low - cross,
                again == base.high + cross - high,
                c * c == word_count(),
        ;
        let j = if carried == 0 {
            0int
        } else {
            1int
        } + if again == 0 {
            0int
        } else {
            1int
        };
        assert((carried + again) * c == j * word_count());
        let m = k + q1 + j;
        assert(a@ * b@ == m * word_count() + product@) by (nonlinear_arith)
            requires
                rest == (k + q1) * word_count() + j * word_count(),
                rest == a@ * b@ - product@,
                m == k + q1 + j,
        ;
        lemma_fundamental_div_mod_converse(a@ * b@, word_count(), m, product@);
    }
    product
}

/// The doubled number with a bit put in below, and the bit that falls out above.
fn shift_in(a: Words, bit: bool) -> (shifted: (Words, bool))
    ensures
        shifted.0@ + if shifted.1 {
            word_count()
        } else {
            0
        } == 2 * a@ + if bit {
            1int
        } else {
            0int
        },
{
    let (doubled, out) = add_carry(a, a);
    if bit {
        let (sum, more) = add_carry(doubled, Words { low: 1, high: 0 });
        assert(!(out && more));
        (sum, out || more)
    } else {
        (doubled, out)
    }
}

fn at_least(a: Words, b: Words) -> (r: bool)
    ensures
        r == (a@ >= b@),
{
    a.high > b.high || (a.high == b.high && a.low >= b.low)
}

/// The quotient and the remainder of two numbers, one bit at a time.
pub fn divmod_words(a: Words, b: Words) -> (result: (Words, Words))
    requires
        b@ != 0,
    ensures
        result.0@ == a@ / b@,
        result.1@ == a@ % b@,
{
    let mut rest = a;
    let mut quotient = Words { low: 0, high: 0 };
    let mut remainder = Words { low: 0, high: 0 };
    let mut left: u32 = 64;
    let ghost mut taken: int = 0;
    let ghost mut below: int = a@;
    proof {
        lemma2_to64();
        lemma2_to64_rest();
        assert(below * pow2(0) == below);
        assert(quotient@ * b@ == 0) by (nonlinear_arith)
            requires
                quotient@ == 0,
        ;
    }
    while left > 0
        invariant
            left <= 64,
            b@ != 0,
            0 <= below < pow2(left as nat),
            a@ == taken * pow2(left as nat) + below,
            rest@ == below * pow2((64 - left) as nat),
            taken == quotient@ * b@ + remainder@,
            remainder@ < b@,
            0 <= taken <= a@,
        decreases left,
    {
        let ghost h = pow2((64 - left) as nat);
        let ghost l = pow2((left - 1) as nat);
        let ghost was = taken;
        let ghost under = below;
        let ghost old_rest = rest@;
        let ghost old_remainder = remainder@;
        let ghost old_quotient = quotient@;
        let (next, top) = shift_in(rest, false);
        rest = next;
        proof {
            lemma_pow2_unfold(left as nat);
            lemma_pow2_adds((64 - left) as nat, (left - 1) as nat);
            lemma_pow2_unfold((65 - left) as nat);
            lemma2_to64_rest();
            assert(h * l == 0x8000_0000_0000_0000);
            lemma_pow2_pos((64 - left) as nat);
            lemma_pow2_pos((left - 1) as nat);
            let bit: int = if top {
                1
            } else {
                0
            };
            taken = 2 * was + bit;
            below = under - bit * l;
            assert(under >= l <==> old_rest >= h * l) by (nonlinear_arith)
                requires
                    old_rest == under * h,
                    h > 0,
            ;
            assert(top <==> old_rest >= 0x8000_0000_0000_0000);
            assert(rest@ == below * (2 * h)) by (nonlinear_arith)
                requires
                    rest@ == 2 * old_rest - bit * 0x1_0000_0000_0000_0000,
                    old_rest == under * h,
                    below == under - bit * l,
                    h * l == 0x8000_0000_0000_0000,
            ;
            assert(a@ == taken * l + below) by (nonlinear_arith)
                requires
                    a@ == was * (2 * l) + under,
                    taken == 2 * was + bit,
                    below == under - bit * l,
            ;
            assert(taken <= a@) by (nonlinear_arith)
                requires
                    a@ == taken * l + below,
                    below >= 0,
                    l >= 1,
                    taken >= 0,
            ;
        }
        let (shifted, over) = shift_in(remainder, top);
        let fits: bool = over || at_least(shifted, b);
        if fits {
            let (reduced, _) = sub_borrow(shifted, b);
            remainder = reduced;
        } else {
            remainder = shifted;
        }
        let ghost q = if fits {
            1int
        } else {
            0int
        };
        proof {
            assert(remainder@ == 2 * old_remainder + if top {
                1int
            } else {
                0int
            } - q * b@);
            assert(0 <= remainder@ < b@);
            assert(taken == (2 * old_quotient + q) * b@ + remainder@) by (nonlinear_arith)
                requires
                    was == old_quotient * b@ + old_remainder,
                    taken == 2 * was + (if top {
                        1int
                    } else {
                        0int
                    }),
                    remainder@ == 2 * old_remainder + (if top {
                        1int
                    } else {
                        0int
                    }) - q * b@,
            ;
            assert(2 * old_quotient + q <= taken) by (nonlinear_arith)
                requires
                    taken == (2 * old_quotient + q) * b@ + remainder@,
                    b@ >= 1,
                    remainder@ >= 0,
                    old_quotient >= 0,
                    q >= 0,
            ;
        }
        let (wider, _) = shift_in(quotient, fits);
        quotient = wider;
        left -= 1;
    }
    proof {
        lemma2_to64();
        assert(taken * pow2(0) == taken);
        assert(a@ == taken);
        lemma_fundamental_div_mod_converse(a@, b@, quotient@, remainder@);
    }
    (quotient, remainder)
}

/// The number that a word is, with or without a sign.
pub open spec fn number_in(signed: bool, bits: int) -> int {
    if signed && bits >= 0x8000_0000_0000_0000 {
        bits - word_count()
    } else {
        bits
    }
}

proof fn lemma_same_word(signed: bool, bits: int)
    requires
        0 <= bits < word_count(),
    ensures
        number_in(signed, bits) % word_count() == bits,
        word(number_in(signed, bits)) == bits,
{
    lemma_small_mod(bits as nat, word_count() as nat);
    if signed && bits >= 0x8000_0000_0000_0000 {
        lemma_mod_multiples_vanish(-1, bits, word_count());
    }
}

/// The negation of a number.
pub fn neg_words(a: Words) -> (negated: Words)
    ensures
        negated@ == (-a@) % word_count(),
{
    sub_words(Words { low: 0, high: 0 }, a)
}

/// The quotient and the remainder of two numbers with signs: the quotient is
/// rounded toward zero, and the remainder has the sign of the dividend.
pub fn divmod_signed(a: Words, b: Words) -> (result: (Words, Words))
    requires
        b@ != 0,
    ensures
        result.0@ == word(truncated_div(number_in(true, a@), number_in(true, b@))),
        result.1@ == word(truncated_mod(number_in(true, a@), number_in(true, b@))),
{
    let ghost x = number_in(true, a@);
    let ghost y = number_in(true, b@);
    let a_negative: bool = a.high >= 0x8000_0000;
    let b_negative: bool = b.high >= 0x8000_0000;
    let n = if a_negative {
        neg_words(a)
    } else {
        a
    };
    let d = if b_negative {
        neg_words(b)
    } else {
        b
    };
    proof {
        lemma_mod_multiples_vanish(1, -a@, word_count());
        lemma_mod_multiples_vanish(1, -b@, word_count());
        if a_negative {
            lemma_small_mod((word_count() - a@) as nat, word_count() as nat);
        }
        if b_negative {
            lemma_small_mod((word_count() - b@) as nat, word_count() as nat);
        }
        assert(n@ == if x < 0 {
            -x
        } else {
            x
        });
        assert(d@ == if y < 0 {
            -y
        } else {
            y
        });
    }
    let (quotient, remainder) = divmod_words(n, d);
    let q = if a_negative == b_negative {
        quotient
    } else {
        neg_words(quotient)
    };
    let r = if a_negative {
        neg_words(remainder)
    } else {
        remainder
    };
    proof {
        lemma_small_mod(quotient@ as nat, word_count() as nat);
        lemma_small_mod(remainder@ as nat, word_count() as nat);
        lemma_fundamental_div_mod(n@, d@);
        let t = truncated_div(x, y);
        assert(t == if (x < 0) == (y < 0) {
            quotient@
        } else {
            -quotient@
        });
        assert(y * t == if x < 0 {
            -(d@ * quotient@)
        } else {
            d@ * quotient@
        }) by (nonlinear_arith)
            requires
                t == if (x < 0) == (y < 0) {
                    quotient@
                } else {
                    -quotient@
                },
                d@ == if y < 0 {
                    -y
                } else {
                    y
                },
        ;
        assert(truncated_mod(x, y) == if x < 0 {
            -remainder@
        } else {
            remainder@
        });
    }
    (q, r)
}

/// The operations that are done word by word.
pub open spec fn splits(op: BinaryOp) -> bool {
    match op {
        BinaryOp::Add
        | BinaryOp::Sub
        | BinaryOp::Mul
        | BinaryOp::And
        | BinaryOp::Or
        | BinaryOp::Xor
        | BinaryOp::CDiv
        | BinaryOp::CMod => true,
        _ => false,
    }
}

/// The words of a 64-bit operation, computed on words alone. They are those of
/// the number that the operation has at full width.
pub fn split_words(signed: bool, op: BinaryOp, a: u64, b: u64) -> (words: Words)
    requires
        splits(op),
        (op == BinaryOp::CDiv || op == BinaryOp::CMod) ==> b != 0,
    ensures
        binary_number(op, number_in(signed, a as int), number_in(signed, b as int)) matches Some(n)
            && words@ == word(n),
{
    let ghost x = number_in(signed, a as int);
    let ghost y = number_in(signed, b as int);
    let left = Words::split(a);
    let right = Words::split(b);
    proof {
        lemma_same_word(signed, a as int);
        lemma_same_word(signed, b as int);
        if signed && (op == BinaryOp::CDiv || op == BinaryOp::CMod) {
            assert(y != 0);
        }
    }
    match op {
        BinaryOp::Add => {
            proof {
                lemma_add_mod_noop(x, y, word_count());
            }
            add_words(left, right)
        },
        BinaryOp::Sub => {
            proof {
                lemma_sub_mod_noop(x, y, word_count());
            }
            sub_words(left, right)
        },
        BinaryOp::Mul => {
            proof {
                lemma_mul_mod_noop(x, y, word_count());
            }
            mul_words(left, right)
        },
        BinaryOp::And => {
            let both = and_words(left, right);
            proof {
                lemma_small_mod(both@ as nat, word_count() as nat);
            }
            both
        },
        BinaryOp::Or => {
            let either = or_words(left, right);
            proof {
                lemma_small_mod(either@ as nat, word_count() as nat);
            }
            either
        },
        BinaryOp::Xor => {
            let one = xor_words(left, right);
            proof {
                lemma_small_mod(one@ as nat, word_count() as nat);
            }
            one
        },
        _ => {
            let (quotient, remainder) = if signed {
                divmod_signed(left, right)
            } else {
                let (q, r) = divmod_words(left, right);
                proof {
                    lemma_fundamental_div_mod(a as int, b as int);
                    lemma_small_mod(q@ as nat, word_count() as nat);
                    lemma_small_mod(r@ as nat, word_count() as nat);
                }
                (q, r)
            };
            match op {
                BinaryOp::CDiv => quotient,
                _ => remainder,
            }
        },
    }
}

/// The addresses of the two words of a 64-bit element, in a buffer of words.
pub fn word_addresses(at: i64) -> (addresses: [i64; 2])
    requires
        -0x4000_0000_0000_0000 <= at < 0x4000_0000_0000_0000,
    ensures
        addresses[0] == 2 * at,
        addresses[1] == 2 * at + 1,
{
    [2 * at, 2 * at + 1]
}

} // verus!
