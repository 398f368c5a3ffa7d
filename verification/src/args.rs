//! What a node's head is compared by: the operation, its argument and its type.

use vstd::prelude::*;

use crate::graph::ConstValue;
use crate::keys::{flipped, int_order, Order};

verus! {

/// The bits of infinity. What lies above, the sign aside, is no number.
pub const INFINITY: u64 = 0x7ff0_0000_0000_0000;

/// The bit that holds the sign of a float.
pub const SIGN: u64 = 0x8000_0000_0000_0000;

/// A constant as it is compared. A float is held by a number that grows with
/// it, so that both zeros are one key; all that is no number is one key too.
#[derive(Clone, Copy, Debug, PartialEq, Eq, Structural)]
pub enum ConstKey {
    Bool(bool),
    Int(i64),
    UInt(u64),
    Float(i64),
    NotANumber,
    Invalid,
}

/// The bits of a float without its sign.
pub open spec fn magnitude(bits: u64) -> int {
    if bits >= SIGN {
        bits - SIGN
    } else {
        bits as int
    }
}

/// The key of a float: its magnitude, with its sign.
pub open spec fn float_rank(bits: u64) -> int {
    if bits >= SIGN {
        -magnitude(bits)
    } else {
        magnitude(bits)
    }
}

/// What a constant is ordered by.
pub open spec fn const_key_of(value: ConstValue) -> ConstKey {
    match value {
        ConstValue::Bool(b) => ConstKey::Bool(b),
        ConstValue::Int(n) => ConstKey::Int(n),
        ConstValue::UInt(n) => ConstKey::UInt(n),
        ConstValue::Float(bits) => if magnitude(bits) > INFINITY {
            ConstKey::NotANumber
        } else {
            ConstKey::Float(float_rank(bits) as i64)
        },
        ConstValue::Invalid => ConstKey::Invalid,
    }
}

/// The key of a constant.
pub fn const_key(value: ConstValue) -> (key: ConstKey)
    ensures
        key == const_key_of(value),
{
    match value {
        ConstValue::Bool(b) => ConstKey::Bool(b),
        ConstValue::Int(n) => ConstKey::Int(n),
        ConstValue::UInt(n) => ConstKey::UInt(n),
        ConstValue::Float(bits) => {
            let size: u64 = if bits >= SIGN {
                bits - SIGN
            } else {
                bits
            };
            if size > INFINITY {
                ConstKey::NotANumber
            } else if bits >= SIGN {
                ConstKey::Float(-(size as i64))
            } else {
                ConstKey::Float(size as i64)
            }
        },
        ConstValue::Invalid => ConstKey::Invalid,
    }
}

/// How constants of one kind compare. What is no number has no order, and
/// neither have constants of different kinds.
pub open spec fn partial_const(a: ConstKey, b: ConstKey) -> Option<Order> {
    match (a, b) {
        (ConstKey::Bool(x), ConstKey::Bool(y)) => Some(
            int_order(
                if x {
                    1
                } else {
                    0
                },
                if y {
                    1
                } else {
                    0
                },
            ),
        ),
        (ConstKey::Int(x), ConstKey::Int(y)) => Some(int_order(x as int, y as int)),
        (ConstKey::UInt(x), ConstKey::UInt(y)) => Some(int_order(x as int, y as int)),
        (ConstKey::Float(x), ConstKey::Float(y)) => Some(int_order(x as int, y as int)),
        _ => None,
    }
}

fn int64_order(a: i64, b: i64) -> (order: Order)
    ensures
        order == int_order(a as int, b as int),
{
    if a < b {
        Order::Less
    } else if a == b {
        Order::Equal
    } else {
        Order::Greater
    }
}

fn size_order(a: usize, b: usize) -> (order: Order)
    ensures
        order == int_order(a as int, b as int),
{
    if a < b {
        Order::Less
    } else if a == b {
        Order::Equal
    } else {
        Order::Greater
    }
}

/// How two constants compare, if they do.
pub fn partial_const_order(a: ConstKey, b: ConstKey) -> (order: Option<Order>)
    ensures
        order == partial_const(a, b),
{
    match (a, b) {
        (ConstKey::Bool(x), ConstKey::Bool(y)) => if x == y {
            Some(Order::Equal)
        } else if y {
            Some(Order::Less)
        } else {
            Some(Order::Greater)
        },
        (ConstKey::Int(x), ConstKey::Int(y)) => Some(int64_order(x, y)),
        (ConstKey::UInt(x), ConstKey::UInt(y)) => if x < y {
            Some(Order::Less)
        } else if x == y {
            Some(Order::Equal)
        } else {
            Some(Order::Greater)
        },
        (ConstKey::Float(x), ConstKey::Float(y)) => Some(int64_order(x, y)),
        _ => None,
    }
}

/// The argument of an operation as it is compared.
#[derive(Debug)]
pub enum ArgKey {
    Nothing,
    Text(String),
    Const(ConstKey),
    Reduce(u16, Vec<usize>),
    Range(Vec<usize>, u16),
    Param(ParamKey),
    Numbers(Vec<usize>),
    /// What a product is compared by, and whether it is yet to be expanded.
    Wmma(Vec<usize>, bool),
}

/// Numbers compare by their first difference from position `k` on; a list comes
/// before the longer ones that it starts.
pub open spec fn lexical(a: Seq<int>, b: Seq<int>, k: int) -> Order
    decreases a.len() - k,
{
    if k < 0 || k >= a.len() || k >= b.len() {
        int_order(a.len() as int, b.len() as int)
    } else if a[k] != b[k] {
        int_order(a[k], b[k])
    } else {
        lexical(a, b, k + 1)
    }
}

/// The code points of a text.
pub open spec fn points(text: Seq<char>) -> Seq<int> {
    Seq::new(text.len(), |i: int| text[i] as u32 as int)
}

/// The numbers of a list.
pub open spec fn numbers(list: Seq<usize>) -> Seq<int> {
    Seq::new(list.len(), |i: int| list[i] as int)
}

/// How two axis paths of some kind compare from position `k` on. The first
/// difference decides; where one path goes on and the other ends, a number
/// meets a kind and there is no order; two kinds are the same or have none.
pub open spec fn path_order(
    a: Seq<usize>,
    a_kind: u16,
    b: Seq<usize>,
    b_kind: u16,
    k: int,
) -> Option<Order>
    decreases a.len() - k,
{
    if k < 0 || k >= a.len() || k >= b.len() {
        if a.len() == b.len() && a_kind == b_kind {
            Some(Order::Equal)
        } else {
            None
        }
    } else if a[k] != b[k] {
        Some(int_order(a[k] as int, b[k] as int))
    } else {
        path_order(a, a_kind, b, b_kind, k + 1)
    }
}

/// How two arguments compare, as far as they do.
pub open spec fn partial_arg(a: ArgKey, b: ArgKey) -> Option<Order> {
    match (a, b) {
        (ArgKey::Nothing, ArgKey::Nothing) => Some(Order::Equal),
        (ArgKey::Text(x), ArgKey::Text(y)) => Some(lexical(points(x@), points(y@), 0)),
        (ArgKey::Const(x), ArgKey::Const(y)) => partial_const(x, y),
        (ArgKey::Reduce(f, x), ArgKey::Reduce(g, y)) => if f != g {
            Some(int_order(f as int, g as int))
        } else {
            Some(lexical(numbers(x@), numbers(y@), 0))
        },
        (ArgKey::Range(x, f), ArgKey::Range(y, g)) => path_order(x@, f, y@, g, 0),
        (ArgKey::Param(x), ArgKey::Param(y)) => partial_param(x, y),
        (ArgKey::Numbers(x), ArgKey::Numbers(y)) => Some(lexical(numbers(x@), numbers(y@), 0)),
        (ArgKey::Wmma(x, f), ArgKey::Wmma(y, g)) => {
            let order = lexical(numbers(x@), numbers(y@), 0);
            if order == Order::Equal && f != g {
                None
            } else {
                Some(order)
            }
        },
        _ => None,
    }
}

fn text_order(a: &str, b: &str) -> (order: Order)
    ensures
        order == lexical(points(a@), points(b@), 0),
{
    let a_len: usize = a.unicode_len();
    let b_len: usize = b.unicode_len();
    let mut k: usize = 0;
    while k < a_len && k < b_len
        invariant
            a_len == a@.len(),
            b_len == b@.len(),
            k <= a_len,
            k <= b_len,
            lexical(points(a@), points(b@), 0) == lexical(points(a@), points(b@), k as int),
        decreases a_len - k,
    {
        let x: u32 = a.get_char(k) as u32;
        let y: u32 = b.get_char(k) as u32;
        if x < y {
            return Order::Less;
        } else if x > y {
            return Order::Greater;
        }
        k += 1;
    }
    size_order(a_len, b_len)
}

pub(crate) fn list_order(a: &Vec<usize>, b: &Vec<usize>) -> (order: Order)
    ensures
        order == lexical(numbers(a@), numbers(b@), 0),
{
    let mut k: usize = 0;
    while k < a.len() && k < b.len()
        invariant
            k <= a@.len(),
            k <= b@.len(),
            lexical(numbers(a@), numbers(b@), 0) == lexical(numbers(a@), numbers(b@), k as int),
        decreases a@.len() - k,
    {
        if a[k] != b[k] {
            return size_order(a[k], b[k]);
        }
        k += 1;
    }
    size_order(a.len(), b.len())
}

fn axis_order(a: &Vec<usize>, a_kind: u16, b: &Vec<usize>, b_kind: u16) -> (order: Option<Order>)
    ensures
        order == path_order(a@, a_kind, b@, b_kind, 0),
{
    let mut k: usize = 0;
    while k < a.len() && k < b.len()
        invariant
            k <= a@.len(),
            k <= b@.len(),
            path_order(a@, a_kind, b@, b_kind, 0) == path_order(a@, a_kind, b@, b_kind, k as int),
        decreases a@.len() - k,
    {
        if a[k] != b[k] {
            return Some(size_order(a[k], b[k]));
        }
        k += 1;
    }
    if a.len() == b.len() && a_kind == b_kind {
        Some(Order::Equal)
    } else {
        None
    }
}

/// How two arguments compare, as far as they do: only what can be compared to
/// the end has an order.
pub fn partial_arg_order(a: &ArgKey, b: &ArgKey) -> (order: Option<Order>)
    ensures
        order == partial_arg(*a, *b),
{
    match (a, b) {
        (ArgKey::Nothing, ArgKey::Nothing) => Some(Order::Equal),
        (ArgKey::Text(x), ArgKey::Text(y)) => Some(text_order(x.as_str(), y.as_str())),
        (ArgKey::Const(x), ArgKey::Const(y)) => partial_const_order(*x, *y),
        (ArgKey::Reduce(f, x), ArgKey::Reduce(g, y)) => if *f < *g {
            Some(Order::Less)
        } else if *f > *g {
            Some(Order::Greater)
        } else {
            Some(list_order(x, y))
        },
        (ArgKey::Range(x, f), ArgKey::Range(y, g)) => axis_order(x, *f, y, *g),
        (ArgKey::Param(x), ArgKey::Param(y)) => partial_param_order(x, y),
        (ArgKey::Numbers(x), ArgKey::Numbers(y)) => Some(list_order(x, y)),
        (ArgKey::Wmma(x, f), ArgKey::Wmma(y, g)) => {
            let order = list_order(x, y);
            if order == Order::Equal && *f != *g {
                None
            } else {
                Some(order)
            }
        },
        _ => None,
    }
}

/// Comparing two lists the other way round gives the opposite outcome.
pub proof fn lemma_lexical_flips(a: Seq<int>, b: Seq<int>, k: int)
    ensures
        lexical(b, a, k) == flipped(lexical(a, b, k)),
    decreases a.len() - k,
{
    if 0 <= k < a.len() && k < b.len() && a[k] == b[k] {
        lemma_lexical_flips(a, b, k + 1);
    }
}

/// Lists that compare as equal are equal from there on.
pub proof fn lemma_lexical_equal(a: Seq<int>, b: Seq<int>, k: int)
    requires
        0 <= k,
    ensures
        lexical(a, b, k) == Order::Equal ==> a.len() == b.len() && forall|i: int|
            k <= i < a.len() ==> #[trigger] a[i] == b[i],
        a.len() == b.len() && (forall|i: int| k <= i < a.len() ==> #[trigger] a[i] == b[i])
            ==> lexical(a, b, k) == Order::Equal,
    decreases a.len() - k,
{
    if k < a.len() && k < b.len() && a[k] == b[k] {
        lemma_lexical_equal(a, b, k + 1);
    }
}

/// The order of lists is transitive.
pub proof fn lemma_lexical_transitive(a: Seq<int>, b: Seq<int>, c: Seq<int>, k: int)
    requires
        0 <= k,
        lexical(a, b, k) != Order::Greater,
        lexical(b, c, k) != Order::Greater,
    ensures
        lexical(a, c, k) != Order::Greater,
        lexical(a, c, k) == Order::Equal <==> lexical(a, b, k) == Order::Equal && lexical(b, c, k)
            == Order::Equal,
    decreases a.len() - k,
{
    if k < a.len() && k < b.len() && k < c.len() && a[k] == b[k] && b[k] == c[k] {
        lemma_lexical_transitive(a, b, c, k + 1);
    }
}

/// A constant as numbers: its kind, and its value.
pub open spec fn const_code(key: ConstKey) -> Seq<int> {
    match key {
        ConstKey::Bool(b) => seq![
            0,
            if b {
                1
            } else {
                0
            },
        ],
        ConstKey::Int(n) => seq![1, n as int],
        ConstKey::UInt(n) => seq![2, n as int],
        ConstKey::Float(n) => seq![3, n as int],
        ConstKey::NotANumber => seq![4],
        ConstKey::Invalid => seq![5],
    }
}

/// An argument as numbers: its kind, and what it holds. A number below all
/// others ends what may have any length.
pub open spec fn arg_code(arg: ArgKey) -> Seq<int> {
    match arg {
        ArgKey::Nothing => seq![0],
        ArgKey::Text(text) => seq![1int] + points(text@) + seq![-1int],
        ArgKey::Const(key) => seq![2int] + const_code(key),
        ArgKey::Reduce(op, axes) => seq![3, op as int] + numbers(axes@) + seq![-1int],
        ArgKey::Range(path, kind) => seq![4int] + numbers(path@) + seq![-1, kind as int],
        ArgKey::Param(key) => seq![5int] + points(key.name@) + seq![-1, space_code(key.addrspace)],
        ArgKey::Numbers(list) => seq![6int] + numbers(list@) + seq![-1int],
        ArgKey::Wmma(list, upcast) => seq![7int] + numbers(list@) + seq![
            -1,
            if upcast {
                1
            } else {
                0
            },
        ],
    }
}

/// An address space as a number: an unset one comes before all others.
pub open spec fn space_code(space: Option<u8>) -> int {
    match space {
        Some(n) => n as int,
        None => -1,
    }
}

/// What a node is compared by before its sources are.
#[derive(Debug)]
pub struct Head {
    pub op: u16,
    pub arg: ArgKey,
    pub dtype: u16,
}

/// A head as numbers.
pub open spec fn head_code(head: Head) -> Seq<int> {
    seq![head.op as int] + arg_code(head.arg) + seq![head.dtype as int]
}

/// How two heads compare: by operation, then by argument, then by type.
pub open spec fn head_order(a: Head, b: Head) -> Order {
    lexical(head_code(a), head_code(b), 0)
}

proof fn lemma_ended_lists(
    front: Seq<int>,
    a: Seq<int>,
    b: Seq<int>,
    a_back: Seq<int>,
    b_back: Seq<int>,
    k: int,
)
    requires
        0 <= k <= a.len(),
        k <= b.len(),
        forall|i: int| 0 <= i < a.len() ==> (#[trigger] a[i]) >= 0,
        forall|i: int| 0 <= i < b.len() ==> (#[trigger] b[i]) >= 0,
        a_back.len() == b_back.len(),
        a_back.len() > 0,
        a_back[0] == -1,
        b_back[0] == -1,
    ensures
        lexical(a, b, k) != Order::Equal ==> lexical(
            front + a + a_back,
            front + b + b_back,
            front.len() + k,
        ) == lexical(a, b, k),
    decreases a.len() - k,
{
    let x = front + a + a_back;
    let y = front + b + b_back;
    if k < a.len() && k < b.len() {
        assert(x[front.len() + k] == a[k]);
        assert(y[front.len() + k] == b[k]);
        if a[k] == b[k] {
            lemma_ended_lists(front, a, b, a_back, b_back, k + 1);
        }
    } else if k < a.len() {
        assert(x[front.len() + k] == a[k]);
        assert(y[front.len() + k] == -1);
    } else if k < b.len() {
        assert(x[front.len() + k] == -1);
        assert(y[front.len() + k] == b[k]);
    }
}

/// Lists that start the same compare by what is behind that.
proof fn lemma_same_start(a: Seq<int>, b: Seq<int>, k: int, n: int)
    requires
        0 <= k <= n,
        n <= a.len(),
        n <= b.len(),
        forall|i: int| k <= i < n ==> #[trigger] a[i] == b[i],
    ensures
        lexical(a, b, k) == lexical(a, b, n),
    decreases n - k,
{
    if k < n {
        lemma_same_start(a, b, k + 1, n);
    }
}

proof fn lemma_ended_arg(
    front: Seq<int>,
    a: Seq<int>,
    b: Seq<int>,
    a_back: Seq<int>,
    b_back: Seq<int>,
)
    requires
        forall|i: int| 0 <= i < a.len() ==> (#[trigger] a[i]) >= 0,
        forall|i: int| 0 <= i < b.len() ==> (#[trigger] b[i]) >= 0,
        a_back.len() == b_back.len(),
        a_back.len() > 0,
        a_back[0] == -1,
        b_back[0] == -1,
    ensures
        lexical(a, b, 0) != Order::Equal ==> lexical(front + a + a_back, front + b + b_back, 0)
            == lexical(a, b, 0),
        lexical(a, b, 0) == Order::Equal && a_back == b_back ==> lexical(
            front + a + a_back,
            front + b + b_back,
            0,
        ) == Order::Equal,
{
    let x = front + a + a_back;
    let y = front + b + b_back;
    lemma_ended_lists(front, a, b, a_back, b_back, 0);
    lemma_same_start(x, y, 0, front.len() as int);
    lemma_lexical_equal(a, b, 0);
    if lexical(a, b, 0) == Order::Equal && a_back == b_back {
        assert(a =~= b);
        lemma_lexical_equal(x, y, 0);
    }
}

proof fn lemma_path_is_lexical(a: Seq<usize>, f: u16, b: Seq<usize>, g: u16, k: int)
    requires
        0 <= k <= a.len(),
        k <= b.len(),
    ensures
        path_order(a, f, b, g, k) matches Some(order) ==> order == lexical(
            numbers(a),
            numbers(b),
            k,
        ) && (order == Order::Equal ==> f == g),
    decreases a.len() - k,
{
    if k < a.len() && k < b.len() && a[k] == b[k] {
        lemma_path_is_lexical(a, f, b, g, k + 1);
    }
}

proof fn lemma_param_order_is_never_wrong(x: ParamKey, y: ParamKey)
    ensures
        partial_param(x, y) matches Some(order) ==> lexical(
            arg_code(ArgKey::Param(x)),
            arg_code(ArgKey::Param(y)),
            0,
        ) == order,
{
    let (p, q) = (points(x.name@), points(y.name@));
    let x_back = seq![-1, space_code(x.addrspace)];
    let y_back = seq![-1, space_code(y.addrspace)];
    lemma_ended_arg(seq![5int], p, q, x_back, y_back);
    if lexical(p, q, 0) == Order::Equal {
        lemma_lexical_equal(p, q, 0);
        assert(p =~= q);
        let a = seq![5int] + p + x_back;
        let b = seq![5int] + q + y_back;
        let n = p.len() as int + 2;
        assert forall|i: int| 0 <= i < n implies #[trigger] a[i] == b[i] by {}
        lemma_same_start(a, b, 0, n);
        assert(a[n] == space_code(x.addrspace));
        assert(b[n] == space_code(y.addrspace));
        reveal_with_fuel(lexical, 3);
    }
}

/// Where arguments have an order in part, it is the one that they have as a
/// whole: stopping short never decides wrongly.
pub proof fn lemma_partial_order_is_never_wrong(a: ArgKey, b: ArgKey)
    ensures
        partial_arg(a, b) matches Some(order) ==> lexical(arg_code(a), arg_code(b), 0) == order,
{
    reveal_with_fuel(lexical, 4);
    match (a, b) {
        (ArgKey::Nothing, ArgKey::Nothing) => {},
        (ArgKey::Text(x), ArgKey::Text(y)) => {
            lemma_ended_arg(seq![1int], points(x@), points(y@), seq![-1int], seq![-1int]);
        },
        (ArgKey::Const(x), ArgKey::Const(y)) => {},
        (ArgKey::Reduce(f, x), ArgKey::Reduce(g, y)) => {
            let p = arg_code(a);
            let q = arg_code(b);
            assert(p[0] == 3 && q[0] == 3 && p[1] == f && q[1] == g);
            if f == g {
                lemma_ended_arg(
                    seq![3, f as int],
                    numbers(x@),
                    numbers(y@),
                    seq![-1int],
                    seq![-1int],
                );
            }
        },
        (ArgKey::Range(x, f), ArgKey::Range(y, g)) => {
            lemma_path_is_lexical(x@, f, y@, g, 0);
            lemma_ended_arg(
                seq![4int],
                numbers(x@),
                numbers(y@),
                seq![-1, f as int],
                seq![-1, g as int],
            );
        },
        (ArgKey::Param(x), ArgKey::Param(y)) => {
            lemma_param_order_is_never_wrong(x, y);
        },
        (ArgKey::Numbers(x), ArgKey::Numbers(y)) => {
            lemma_ended_arg(seq![6int], numbers(x@), numbers(y@), seq![-1int], seq![-1int]);
        },
        (ArgKey::Wmma(x, f), ArgKey::Wmma(y, g)) => {
            let (n, m): (int, int) = (
                if f {
                    1
                } else {
                    0
                },
                if g {
                    1
                } else {
                    0
                },
            );
            lemma_ended_arg(seq![7int], numbers(x@), numbers(y@), seq![-1, n], seq![-1, m]);
        },
        _ => {},
    }
}

/// Products that are compared by the same have no order where only one of them
/// is yet to be expanded.
pub proof fn lemma_expanding_leaves_no_order(a: Vec<usize>, b: Vec<usize>)
    requires
        a@ == b@,
    ensures
        partial_arg(ArgKey::Wmma(a, true), ArgKey::Wmma(b, false)) is None,
        partial_arg(ArgKey::Wmma(a, false), ArgKey::Wmma(b, true)) is None,
        partial_arg(ArgKey::Wmma(a, true), ArgKey::Wmma(b, true)) == Some(Order::Equal),
{
    lemma_lexical_equal(numbers(a@), numbers(b@), 0);
}

/// A shorter or longer axis path, or one of another kind, has no order.
pub proof fn lemma_path_prefix_has_no_order(a: Seq<usize>, f: u16, b: Seq<usize>, g: u16)
    requires
        a.is_prefix_of(b),
        a.len() < b.len() || f != g,
    ensures
        path_order(a, f, b, g, 0) is None,
        path_order(b, g, a, f, 0) is None,
{
    lemma_path_prefix_from(a, f, b, g, 0);
}

proof fn lemma_path_prefix_from(a: Seq<usize>, f: u16, b: Seq<usize>, g: u16, k: int)
    requires
        a.is_prefix_of(b),
        a.len() < b.len() || f != g,
        0 <= k <= a.len(),
    ensures
        path_order(a, f, b, g, k) is None,
        path_order(b, g, a, f, k) is None,
    decreases a.len() - k,
{
    if k < a.len() {
        assert(a[k] == b[k]);
        lemma_path_prefix_from(a, f, b, g, k + 1);
    }
}

/// An axis path of no particular kind.
pub fn range_key(path: Vec<usize>, kind: u16) -> (key: ArgKey)
    ensures
        key == ArgKey::Range(path, kind),
{
    ArgKey::Range(path, kind)
}

/// The axes of a reduction.
pub fn reduce_key(op: u16, axes: Vec<usize>) -> (key: ArgKey)
    ensures
        key == ArgKey::Reduce(op, axes),
{
    ArgKey::Reduce(op, axes)
}

/// A parameter as it is compared.
#[derive(Debug)]
pub struct ParamKey {
    pub name: String,
    pub addrspace: Option<u8>,
}

/// How two parameters compare: by name, and where that ties by address space.
/// An unset field has no order against a set one.
pub open spec fn partial_param(a: ParamKey, b: ParamKey) -> Option<Order> {
    let names = lexical(points(a.name@), points(b.name@), 0);
    if names != Order::Equal {
        Some(names)
    } else {
        match (a.addrspace, b.addrspace) {
            (None, None) => Some(Order::Equal),
            (Some(x), Some(y)) => Some(int_order(x as int, y as int)),
            _ => None,
        }
    }
}

/// How two parameters compare, if they do.
pub fn partial_param_order(a: &ParamKey, b: &ParamKey) -> (order: Option<Order>)
    ensures
        order == partial_param(*a, *b),
{
    let names = text_order(a.name.as_str(), b.name.as_str());
    if names != Order::Equal {
        return Some(names);
    }
    match (a.addrspace, b.addrspace) {
        (None, None) => Some(Order::Equal),
        (Some(x), Some(y)) => if x < y {
            Some(Order::Less)
        } else if x == y {
            Some(Order::Equal)
        } else {
            Some(Order::Greater)
        },
        _ => None,
    }
}

/// Ranks that order as the heads do: equal heads share one rank.
pub open spec fn ranked(heads: Seq<Head>, ranks: Seq<u32>) -> bool {
    &&& ranks.len() == heads.len()
    &&& forall|i: int, j: int|
        0 <= i < heads.len() && 0 <= j < heads.len() ==> int_order(
            (#[trigger] ranks[i]) as int,
            (#[trigger] ranks[j]) as int,
        ) == head_order(heads[i], heads[j])
}

/// How many of the first `n` heads come before the one at `i`.
spec fn smaller(heads: Seq<Head>, i: int, n: nat) -> nat
    decreases n,
{
    if n == 0 {
        0
    } else {
        smaller(heads, i, (n - 1) as nat) + if head_order(heads[n - 1], heads[i]) == Order::Less {
            1nat
        } else {
            0nat
        }
    }
}

proof fn lemma_head_step(a: Head, b: Head, c: Head)
    requires
        head_order(b, c) != Order::Greater,
    ensures
        head_order(a, b) == Order::Less ==> head_order(a, c) == Order::Less,
        head_order(b, c) == Order::Equal ==> (head_order(a, b) == Order::Less <==> head_order(a, c)
            == Order::Less),
        head_order(b, b) == Order::Equal,
        head_order(c, b) == flipped(head_order(b, c)),
{
    let (x, y, z) = (head_code(a), head_code(b), head_code(c));
    if lexical(x, y, 0) == Order::Less {
        lemma_lexical_transitive(x, y, z, 0);
    }
    lemma_lexical_flips(y, z, 0);
    if lexical(y, z, 0) == Order::Equal && lexical(x, z, 0) == Order::Less {
        lemma_lexical_transitive(x, z, y, 0);
    }
    lemma_lexical_equal(y, y, 0);
}

proof fn lemma_smaller(heads: Seq<Head>, i: int, j: int, n: nat)
    requires
        0 <= i < heads.len(),
        0 <= j < heads.len(),
        n <= heads.len(),
        head_order(heads[i], heads[j]) != Order::Greater,
    ensures
        smaller(heads, i, n) <= smaller(heads, j, n),
        smaller(heads, i, n) <= n,
        head_order(heads[i], heads[j]) == Order::Equal ==> smaller(heads, i, n) == smaller(
            heads,
            j,
            n,
        ),
        head_order(heads[i], heads[j]) == Order::Less && i < n ==> smaller(heads, i, n) < smaller(
            heads,
            j,
            n,
        ),
    decreases n,
{
    if n > 0 {
        lemma_smaller(heads, i, j, (n - 1) as nat);
        lemma_head_step(heads[n - 1], heads[i], heads[j]);
    }
}

fn push_numbers(code: &mut Vec<i128>, list: &Vec<usize>)
    ensures
        codes(final(code)@) == codes(old(code)@) + numbers(list@),
{
    let ghost start = code@;
    let mut at: usize = 0;
    assert(codes(code@) =~= codes(start) + numbers(list@).take(0));
    while at < list.len()
        invariant
            at <= list@.len(),
            codes(code@) == codes(start) + numbers(list@).take(at as int),
        decreases list@.len() - at,
    {
        let ghost had = code@;
        code.push(list[at] as i128);
        assert(codes(code@) =~= codes(had).push(list@[at as int] as int));
        at += 1;
        assert(codes(code@) =~= codes(start) + numbers(list@).take(at as int));
    }
    assert(numbers(list@).take(list@.len() as int) =~= numbers(list@));
}

fn push_points(code: &mut Vec<i128>, text: &str)
    ensures
        codes(final(code)@) == codes(old(code)@) + points(text@),
{
    let ghost start = code@;
    let len: usize = text.unicode_len();
    let mut at: usize = 0;
    assert(codes(code@) =~= codes(start) + points(text@).take(0));
    while at < len
        invariant
            len == text@.len(),
            at <= len,
            codes(code@) == codes(start) + points(text@).take(at as int),
        decreases len - at,
    {
        let ghost had = code@;
        let point: u32 = text.get_char(at) as u32;
        code.push(point as i128);
        assert(codes(code@) =~= codes(had).push(point as int));
        at += 1;
        assert(codes(code@) =~= codes(start) + points(text@).take(at as int));
    }
    assert(points(text@).take(text@.len() as int) =~= points(text@));
}

/// The numbers of a list of codes.
pub open spec fn codes(list: Seq<i128>) -> Seq<int> {
    Seq::new(list.len(), |i: int| list[i] as int)
}

/// Appends one number.
fn put(code: &mut Vec<i128>, n: i128)
    ensures
        codes(final(code)@) == codes(old(code)@).push(n as int),
{
    code.push(n);
    assert(codes(code@) =~= codes(old(code)@).push(n as int));
}

fn code_of(head: &Head) -> (code: Vec<i128>)
    ensures
        codes(code@) == head_code(*head),
{
    let mut code: Vec<i128> = Vec::new();
    put(&mut code, head.op as i128);
    assert(codes(code@) =~= seq![head.op as int]);
    match &head.arg {
        ArgKey::Nothing => {
            put(&mut code, 0);
        },
        ArgKey::Text(text) => {
            put(&mut code, 1);
            push_points(&mut code, text.as_str());
            put(&mut code, -1);
        },
        ArgKey::Const(key) => {
            put(&mut code, 2);
            match *key {
                ConstKey::Bool(b) => {
                    put(&mut code, 0);
                    let bit: i128 = if b {
                        1
                    } else {
                        0
                    };
                    put(&mut code, bit);
                },
                ConstKey::Int(n) => {
                    put(&mut code, 1);
                    put(&mut code, n as i128);
                },
                ConstKey::UInt(n) => {
                    put(&mut code, 2);
                    put(&mut code, n as i128);
                },
                ConstKey::Float(n) => {
                    put(&mut code, 3);
                    put(&mut code, n as i128);
                },
                ConstKey::NotANumber => {
                    put(&mut code, 4);
                },
                ConstKey::Invalid => {
                    put(&mut code, 5);
                },
            }
        },
        ArgKey::Reduce(op, axes) => {
            put(&mut code, 3);
            put(&mut code, *op as i128);
            push_numbers(&mut code, axes);
            put(&mut code, -1);
        },
        ArgKey::Range(path, kind) => {
            put(&mut code, 4);
            push_numbers(&mut code, path);
            put(&mut code, -1);
            put(&mut code, *kind as i128);
        },
        ArgKey::Param(key) => {
            put(&mut code, 5);
            push_points(&mut code, key.name.as_str());
            put(&mut code, -1);
            let space: i128 = match key.addrspace {
                Some(n) => n as i128,
                None => -1,
            };
            put(&mut code, space);
        },
        ArgKey::Numbers(list) => {
            put(&mut code, 6);
            push_numbers(&mut code, list);
            put(&mut code, -1);
        },
        ArgKey::Wmma(list, upcast) => {
            put(&mut code, 7);
            push_numbers(&mut code, list);
            put(&mut code, -1);
            let bit: i128 = if *upcast {
                1
            } else {
                0
            };
            put(&mut code, bit);
        },
    }
    assert(codes(code@) =~= seq![head.op as int] + arg_code(head.arg));
    put(&mut code, head.dtype as i128);
    assert(codes(code@) =~= head_code(*head));
    code
}

fn code_order(a: &Vec<i128>, b: &Vec<i128>) -> (order: Order)
    ensures
        order == lexical(codes(a@), codes(b@), 0),
{
    let mut k: usize = 0;
    while k < a.len() && k < b.len()
        invariant
            k <= a@.len(),
            k <= b@.len(),
            lexical(codes(a@), codes(b@), 0) == lexical(codes(a@), codes(b@), k as int),
        decreases a@.len() - k,
    {
        if a[k] < b[k] {
            return Order::Less;
        } else if a[k] > b[k] {
            return Order::Greater;
        }
        k += 1;
    }
    size_order(a.len(), b.len())
}

/// How two heads compare; see `head_order`.
pub fn compare_heads(a: &Head, b: &Head) -> (order: Order)
    ensures
        order == head_order(*a, *b),
{
    let left = code_of(a);
    let right = code_of(b);
    code_order(&left, &right)
}

/// Ranks for heads, so that nodes can be compared by one number each.
pub fn rank_heads(heads: &Vec<Head>) -> (ranks: Vec<u32>)
    requires
        heads@.len() <= u32::MAX,
    ensures
        ranked(heads@, ranks@),
{
    let mut coded: Vec<Vec<i128>> = Vec::new();
    let mut at: usize = 0;
    while at < heads.len()
        invariant
            at <= heads@.len(),
            coded@.len() == at,
            forall|i: int| 0 <= i < at ==> codes((#[trigger] coded@[i])@) == head_code(heads@[i]),
        decreases heads@.len() - at,
    {
        let code = code_of(&heads[at]);
        coded.push(code);
        at += 1;
    }
    let mut ranks: Vec<u32> = Vec::new();
    let mut i: usize = 0;
    while i < heads.len()
        invariant
            heads@.len() <= u32::MAX,
            coded@.len() == heads@.len(),
            forall|m: int|
                0 <= m < coded@.len() ==> codes((#[trigger] coded@[m])@) == head_code(heads@[m]),
            i <= heads@.len(),
            ranks@.len() == i,
            forall|m: int|
                0 <= m < i ==> #[trigger] ranks@[m] == smaller(heads@, m, heads@.len()),
        decreases heads@.len() - i,
    {
        let mut rank: u32 = 0;
        let mut j: usize = 0;
        while j < heads.len()
            invariant
                heads@.len() <= u32::MAX,
                coded@.len() == heads@.len(),
                forall|m: int|
                    0 <= m < coded@.len() ==> codes((#[trigger] coded@[m])@) == head_code(
                        heads@[m],
                    ),
                i < heads@.len(),
                j <= heads@.len(),
                rank <= j,
                rank == smaller(heads@, i as int, j as nat),
            decreases heads@.len() - j,
        {
            match code_order(&coded[j], &coded[i]) {
                Order::Less => {
                    rank += 1;
                },
                _ => {},
            }
            j += 1;
        }
        ranks.push(rank);
        i += 1;
    }
    proof {
        assert forall|a: int, b: int|
            0 <= a < heads@.len() && 0 <= b < heads@.len() implies int_order(
            (#[trigger] ranks@[a]) as int,
            (#[trigger] ranks@[b]) as int,
        ) == head_order(heads@[a], heads@[b]) by {
            lemma_lexical_flips(head_code(heads@[a]), head_code(heads@[b]), 0);
            if head_order(heads@[a], heads@[b]) != Order::Greater {
                lemma_smaller(heads@, a, b, heads@.len());
            } else {
                lemma_smaller(heads@, b, a, heads@.len());
            }
        }
    }
    ranks
}

} // verus!
