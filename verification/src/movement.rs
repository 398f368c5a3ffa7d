//! Movement operations: how an index of what they give reads what they are
//! given.

use vstd::prelude::*;

verus! {

/// An operation that moves elements without computing on them.
#[derive(Debug)]
pub enum Movement {
    /// The same elements in row-major order under other sizes.
    Reshape(Vec<usize>),
    /// Axes in another order.
    Permute(Vec<usize>),
    /// Axes of one element repeated, and new axes in front.
    Expand(Vec<usize>),
    /// A window, by its offsets and its sizes.
    Shrink { offsets: Vec<usize>, sizes: Vec<usize> },
    /// Axes walked backwards.
    Flip(Vec<bool>),
    /// Elements that are not there, before and after.
    Pad { begin: Vec<usize>, end: Vec<usize> },
}

/// How many elements the first `n` axes hold.
pub open spec fn volume(dims: Seq<usize>, n: nat) -> nat
    decreases n,
{
    if n == 0 {
        1
    } else {
        volume(dims, (n - 1) as nat) * (dims[n - 1] as nat)
    }
}

/// The row-major offset of an index, along the first `n` axes.
pub open spec fn offset(dims: Seq<usize>, index: Seq<usize>, n: nat) -> nat
    decreases n,
{
    if n == 0 {
        0
    } else {
        offset(dims, index, (n - 1) as nat) * (dims[n - 1] as nat) + (index[n - 1] as nat)
    }
}

/// The index along the first `n` axes that a row-major offset stands for.
pub open spec fn digits(dims: Seq<usize>, at: nat, n: nat) -> Seq<usize>
    decreases n,
{
    if n == 0 {
        Seq::empty()
    } else {
        digits(dims, at / (dims[n - 1] as nat), (n - 1) as nat).push(
            (at % (dims[n - 1] as nat)) as usize,
        )
    }
}

/// Whether an index lies inside some sizes.
pub open spec fn is_inside(dims: Seq<usize>, index: Seq<usize>) -> bool {
    &&& index.len() == dims.len()
    &&& forall|i: int| 0 <= i < dims.len() ==> (#[trigger] index[i]) < dims[i]
}

/// Whether a list names each of the numbers below its length once.
pub open spec fn is_order(order: Seq<usize>) -> bool {
    &&& order.len() <= usize::MAX
    &&& forall|i: int| 0 <= i < order.len() ==> (#[trigger] order[i]) < order.len()
    &&& forall|i: int, j: int|
        0 <= i < j < order.len() ==> (#[trigger] order[i]) != (#[trigger] order[j])
}

/// Where a list names a number.
pub open spec fn place_in(order: Seq<usize>, axis: int) -> int {
    choose|j: int| 0 <= j < order.len() && #[trigger] order[j] == axis
}

/// Whether an operation takes elements of some sizes.
pub open spec fn takes(op: Movement, dims: Seq<usize>) -> bool {
    match op {
        Movement::Reshape(sizes) => volume(sizes@, sizes@.len()) == volume(dims, dims.len()),
        Movement::Permute(order) => order@.len() == dims.len() && is_order(order@),
        Movement::Expand(sizes) => sizes@.len() >= dims.len() && forall|i: int|
            0 <= i < dims.len() ==> (#[trigger] dims[i]) == 1 || dims[i] == sizes@[sizes@.len()
                - dims.len() + i],
        Movement::Shrink { offsets, sizes } => {
            &&& offsets@.len() == dims.len()
            &&& sizes@.len() == dims.len()
            &&& forall|i: int|
                0 <= i < dims.len() ==> (#[trigger] offsets@[i]) + sizes@[i] <= dims[i]
        },
        Movement::Flip(axes) => axes@.len() == dims.len(),
        Movement::Pad { begin, end } => {
            &&& begin@.len() == dims.len()
            &&& end@.len() == dims.len()
            &&& forall|i: int|
                0 <= i < dims.len() ==> (#[trigger] begin@[i]) + dims[i] + end@[i] <= usize::MAX
        },
    }
}

/// The sizes that an operation gives.
pub open spec fn moved_dims(op: Movement, dims: Seq<usize>) -> Seq<usize> {
    match op {
        Movement::Reshape(sizes) => sizes@,
        Movement::Permute(order) => Seq::new(dims.len(), |i: int| dims[order@[i] as int]),
        Movement::Expand(sizes) => sizes@,
        Movement::Shrink { sizes, .. } => sizes@,
        Movement::Flip(_) => dims,
        Movement::Pad { begin, end } => Seq::new(
            dims.len(),
            |i: int| (begin@[i] + dims[i] + end@[i]) as usize,
        ),
    }
}

/// What an index of the result reads: an index of the source, or nothing where
/// padding stands.
pub open spec fn source_index(op: Movement, dims: Seq<usize>, index: Seq<usize>) -> Option<
    Seq<usize>,
> {
    match op {
        Movement::Reshape(sizes) => Some(
            digits(dims, offset(sizes@, index, sizes@.len()), dims.len()),
        ),
        Movement::Permute(order) => Some(
            Seq::new(dims.len(), |i: int| index[place_in(order@, i)]),
        ),
        Movement::Expand(sizes) => Some(
            Seq::new(
                dims.len(),
                |i: int|
                    if dims[i] == 1 {
                        0usize
                    } else {
                        index[sizes@.len() - dims.len() + i]
                    },
            ),
        ),
        Movement::Shrink { offsets, .. } => Some(
            Seq::new(dims.len(), |i: int| (index[i] + offsets@[i]) as usize),
        ),
        Movement::Flip(axes) => Some(
            Seq::new(
                dims.len(),
                |i: int|
                    if axes@[i] {
                        (dims[i] - 1 - index[i]) as usize
                    } else {
                        index[i]
                    },
            ),
        ),
        Movement::Pad { begin, .. } => if forall|i: int|
            0 <= i < dims.len() ==> begin@[i] <= #[trigger] index[i] < begin@[i] + dims[i] {
            Some(Seq::new(dims.len(), |i: int| (index[i] - begin@[i]) as usize))
        } else {
            None
        },
    }
}

/// The offset of an index that lies inside is below the number of elements.
pub proof fn lemma_offset_bound(dims: Seq<usize>, index: Seq<usize>, n: nat)
    requires
        is_inside(dims, index),
        n <= dims.len(),
    ensures
        offset(dims, index, n) < volume(dims, n),
    decreases n,
{
    if n > 0 {
        lemma_offset_bound(dims, index, (n - 1) as nat);
        let o = offset(dims, index, (n - 1) as nat);
        let v = volume(dims, (n - 1) as nat);
        let d = dims[n - 1] as nat;
        let i = index[n - 1] as nat;
        assert(o * d + i < v * d) by (nonlinear_arith)
            requires
                o + 1 <= v,
                i < d,
        ;
    }
}

proof fn lemma_volume_prefix(dims: Seq<usize>, n: nat)
    requires
        n <= dims.len(),
        volume(dims, dims.len()) > 0,
    ensures
        0 < volume(dims, n) <= volume(dims, dims.len()),
        forall|i: int| n <= i < dims.len() ==> (#[trigger] dims[i]) > 0,
    decreases dims.len() - n,
{
    if n < dims.len() {
        lemma_volume_prefix(dims, n + 1);
        let v = volume(dims, n);
        let d = dims[n as int] as nat;
        assert(v > 0 && d > 0 && v <= v * d) by (nonlinear_arith)
            requires
                v * d > 0,
        ;
    }
}

/// An offset inside some sizes is the offset of its digits, which lie inside.
pub proof fn lemma_digits(dims: Seq<usize>, at: nat, n: nat)
    requires
        n <= dims.len(),
        at < volume(dims, n),
    ensures
        digits(dims, at, n).len() == n,
        forall|i: int| 0 <= i < n ==> (#[trigger] digits(dims, at, n)[i]) < dims[i],
        offset(dims, digits(dims, at, n), n) == at,
    decreases n,
{
    if n > 0 {
        let d = dims[n - 1] as nat;
        let v = volume(dims, (n - 1) as nat);
        assert(d > 0) by (nonlinear_arith)
            requires
                at < v * d,
        ;
        let q = at / d;
        let r = at % d;
        assert(q * d + r == at && r < d) by (nonlinear_arith)
            requires
                d > 0,
                q == at / d,
                r == at % d,
        ;
        assert(q < v) by (nonlinear_arith)
            requires
                q * d + r == at,
                at < v * d,
                d > 0,
        ;
        lemma_digits(dims, q, (n - 1) as nat);
        let rest = digits(dims, q, (n - 1) as nat);
        let all = digits(dims, at, n);
        assert(all == rest.push(r as usize));
        lemma_offset_prefix(dims, all, rest, (n - 1) as nat);
        assert forall|i: int| 0 <= i < n implies (#[trigger] all[i]) < dims[i] by {
            if i < n - 1 {
                assert(all[i] == rest[i]);
            }
        }
    } else {
        assert(digits(dims, at, n) =~= Seq::empty());
    }
}

proof fn lemma_offset_prefix(dims: Seq<usize>, a: Seq<usize>, b: Seq<usize>, n: nat)
    requires
        n <= a.len(),
        n <= b.len(),
        forall|i: int| 0 <= i < n ==> a[i] == b[i],
    ensures
        offset(dims, a, n) == offset(dims, b, n),
    decreases n,
{
    if n > 0 {
        lemma_offset_prefix(dims, a, b, (n - 1) as nat);
    }
}

/// The digits of the offset of an index are that index.
pub proof fn lemma_digits_of_offset(dims: Seq<usize>, index: Seq<usize>, n: nat)
    requires
        is_inside(dims, index),
        n <= dims.len(),
    ensures
        digits(dims, offset(dims, index, n), n) == index.take(n as int),
    decreases n,
{
    if n > 0 {
        lemma_digits_of_offset(dims, index, (n - 1) as nat);
        let d = dims[n - 1] as nat;
        let o = offset(dims, index, (n - 1) as nat);
        let i = index[n - 1] as nat;
        assert((o * d + i) / d == o && (o * d + i) % d == i) by (nonlinear_arith)
            requires
                0 <= i < d,
        ;
        assert(index.take(n as int) =~= index.take(n - 1).push(index[n - 1]));
    } else {
        assert(index.take(0) =~= Seq::empty());
    }
}

/// Reshaping keeps the row-major offset: the element that an index reads stands
/// at the same place among all elements.
pub proof fn lemma_reshape_keeps_offset(sizes: Vec<usize>, dims: Seq<usize>, index: Seq<usize>)
    requires
        takes(Movement::Reshape(sizes), dims),
        is_inside(sizes@, index),
    ensures
        ({
            let source = source_index(Movement::Reshape(sizes), dims, index)->0;
            &&& is_inside(dims, source)
            &&& offset(dims, source, dims.len()) == offset(sizes@, index, sizes@.len())
        }),
{
    lemma_offset_bound(sizes@, index, sizes@.len());
    lemma_digits(dims, offset(sizes@, index, sizes@.len()), dims.len());
}

/// Reshaping there and back reads every index where it stands.
pub proof fn lemma_reshape_back(
    sizes: Vec<usize>,
    back: Vec<usize>,
    index: Seq<usize>,
)
    requires
        takes(Movement::Reshape(sizes), back@),
        is_inside(back@, index),
    ensures
        source_index(
            Movement::Reshape(sizes),
            back@,
            source_index(Movement::Reshape(back), sizes@, index)->0,
        ) == Some(index),
{
    lemma_reshape_keeps_offset(back, sizes@, index);
    lemma_digits_of_offset(back@, index, back@.len());
    assert(index.take(back@.len() as int) =~= index);
}

/// Walking axes backwards twice walks them as they stand.
pub proof fn lemma_flip_twice(axes: Vec<bool>, dims: Seq<usize>, index: Seq<usize>)
    requires
        takes(Movement::Flip(axes), dims),
        is_inside(dims, index),
    ensures
        source_index(
            Movement::Flip(axes),
            dims,
            source_index(Movement::Flip(axes), dims, index)->0,
        ) == Some(index),
{
    let once = source_index(Movement::Flip(axes), dims, index)->0;
    let twice = source_index(Movement::Flip(axes), dims, once)->0;
    assert forall|i: int| 0 <= i < dims.len() implies twice[i] == index[i] by {
        assert(index[i] < dims[i]);
    }
    assert(twice =~= index);
}

/// A window onto what was padded, where the elements are, reads every index
/// where it stands.
pub proof fn lemma_window_undoes_padding(
    begin: Vec<usize>,
    end: Vec<usize>,
    sizes: Vec<usize>,
    index: Seq<usize>,
)
    requires
        takes(Movement::Pad { begin, end }, sizes@),
        is_inside(sizes@, index),
    ensures
        ({
            let padded = moved_dims(Movement::Pad { begin, end }, sizes@);
            let inner = source_index(Movement::Shrink { offsets: begin, sizes }, padded, index)->0;
            source_index(Movement::Pad { begin, end }, sizes@, inner) == Some(index)
        }),
{
    let pad = Movement::Pad { begin, end };
    let padded = moved_dims(pad, sizes@);
    let inner = source_index(Movement::Shrink { offsets: begin, sizes }, padded, index)->0;
    assert forall|i: int| 0 <= i < sizes@.len() implies begin@[i] <= #[trigger] inner[i] < begin@[i]
        + sizes@[i] by {
        assert(index[i] < sizes@[i]);
        assert(begin@[i] + sizes@[i] + end@[i] <= usize::MAX);
    }
    assert(source_index(pad, sizes@, inner)->0 =~= index);
}

proof fn lemma_place_in(order: Seq<usize>, j: int)
    requires
        is_order(order),
        0 <= j < order.len(),
    ensures
        place_in(order, order[j] as int) == j,
{
    let k = place_in(order, order[j] as int);
    assert(0 <= k < order.len() && order[k] == order[j]);
    if k < j {
        assert(order[k] != order[j]);
    } else if j < k {
        assert(order[j] != order[k]);
    }
}

/// An order has a place for every axis.
pub proof fn lemma_order_covers(order: Seq<usize>, axis: int)
    requires
        is_order(order),
        0 <= axis < order.len(),
    ensures
        0 <= place_in(order, axis) < order.len(),
        order[place_in(order, axis)] == axis,
{
    if forall|j: int| 0 <= j < order.len() ==> #[trigger] order[j] != axis {
        let image = Set::new(|v: usize| v < order.len() && v != axis);
        let all = order.to_set();
        lemma_small_numbers(order.len(), axis);
        assert(all.subset_of(image)) by {
            assert forall|v: usize| all.contains(v) implies image.contains(v) by {
                let j = choose|j: int| 0 <= j < order.len() && order[j] == v;
                assert(order[j] == v);
            }
        }
        assert(order.no_duplicates());
        order.unique_seq_to_set();
        vstd::set_lib::lemma_len_subset(all, image);
        assert(false);
    }
}

proof fn lemma_small_numbers(n: nat, axis: int)
    requires
        0 <= axis < n <= usize::MAX + 1,
    ensures
        Set::new(|v: usize| v < n && v != axis).finite(),
        Set::new(|v: usize| v < n && v != axis).len() == n - 1,
{
    let all = Set::new(|v: usize| v < n);
    lemma_numbers_below(n);
    let image = Set::new(|v: usize| v < n && v != axis);
    assert(image =~= all.remove(axis as usize));
}

proof fn lemma_numbers_below(n: nat)
    requires
        n <= usize::MAX + 1,
    ensures
        Set::new(|v: usize| v < n).finite(),
        Set::new(|v: usize| v < n).len() == n,
    decreases n,
{
    let set = Set::new(|v: usize| v < n);
    if n == 0 {
        assert(set =~= Set::empty());
    } else {
        lemma_numbers_below((n - 1) as nat);
        assert(set =~= Set::new(|v: usize| v < n - 1).insert((n - 1) as usize));
    }
}

/// Axes put into another order and back are read where they stand.
pub proof fn lemma_permute_back(
    order: Vec<usize>,
    back: Vec<usize>,
    dims: Seq<usize>,
    index: Seq<usize>,
)
    requires
        takes(Movement::Permute(order), dims),
        takes(Movement::Permute(back), dims),
        is_inside(dims, index),
        forall|i: int| 0 <= i < dims.len() ==> back@[order@[i] as int] == i,
    ensures
        source_index(
            Movement::Permute(order),
            dims,
            source_index(
                Movement::Permute(back),
                moved_dims(Movement::Permute(order), dims),
                index,
            )->0,
        ) == Some(index),
{
    let middle = moved_dims(Movement::Permute(order), dims);
    let once = source_index(Movement::Permute(back), middle, index)->0;
    let twice = source_index(Movement::Permute(order), dims, once)->0;
    assert forall|i: int| 0 <= i < dims.len() implies twice[i] == index[i] by {
        lemma_order_covers(order@, i);
        let j = place_in(order@, i);
        assert(back@[order@[j] as int] == j);
        lemma_place_in(back@, i);
        assert(once[j] == index[place_in(back@, j)]);
        assert(place_in(back@, back@[i] as int) == i);
    }
    assert(twice =~= index);
}

/// Where an index of the result reads the source at all, it reads inside it.
pub proof fn lemma_source_is_inside(op: Movement, dims: Seq<usize>, index: Seq<usize>)
    requires
        takes(op, dims),
        is_inside(moved_dims(op, dims), index),
    ensures
        source_index(op, dims, index) is Some ==> is_inside(
            dims,
            source_index(op, dims, index)->0,
        ),
        source_index(op, dims, index) is None ==> op is Pad,
{
    match op {
        Movement::Reshape(sizes) => {
            lemma_reshape_keeps_offset(sizes, dims, index);
        },
        Movement::Permute(order) => {
            let source = source_index(op, dims, index)->0;
            let moved = moved_dims(op, dims);
            assert forall|i: int| 0 <= i < dims.len() implies (#[trigger] source[i]) < dims[i] by {
                lemma_order_covers(order@, i);
                let j = place_in(order@, i);
                assert(index[j] < moved[j]);
            }
        },
        Movement::Expand(sizes) => {
            let source = source_index(op, dims, index)->0;
            assert forall|i: int| 0 <= i < dims.len() implies (#[trigger] source[i]) < dims[i] by {
                let j = sizes@.len() - dims.len() + i;
                assert(index[j] < sizes@[j]);
            }
        },
        Movement::Shrink { offsets, sizes } => {
            let source = source_index(op, dims, index)->0;
            assert forall|i: int| 0 <= i < dims.len() implies (#[trigger] source[i]) < dims[i] by {
                assert(index[i] < sizes@[i]);
                assert(offsets@[i] + sizes@[i] <= dims[i]);
            }
        },
        Movement::Flip(_axes) => {
            let source = source_index(op, dims, index)->0;
            assert forall|i: int| 0 <= i < dims.len() implies (#[trigger] source[i]) < dims[i] by {
                assert(index[i] < dims[i]);
            }
        },
        Movement::Pad { begin, .. } => {
            if source_index(op, dims, index) is Some {
                let source = source_index(op, dims, index)->0;
                assert forall|i: int| 0 <= i < dims.len() implies (#[trigger] source[i])
                    < dims[i] by {
                    assert(begin@[i] <= index[i] < begin@[i] + dims[i]);
                }
            }
        },
    }
}

fn find_offset(dims: &Vec<usize>, index: &Vec<usize>) -> (at: usize)
    requires
        is_inside(dims@, index@),
        volume(dims@, dims@.len()) <= usize::MAX,
    ensures
        at == offset(dims@, index@, dims@.len()),
        at < volume(dims@, dims@.len()),
{
    let mut at: usize = 0;
    let mut n: usize = 0;
    proof {
        lemma_offset_bound(dims@, index@, dims@.len());
    }
    while n < dims.len()
        invariant
            n <= dims@.len(),
            is_inside(dims@, index@),
            0 < volume(dims@, dims@.len()) <= usize::MAX,
            at == offset(dims@, index@, n as nat),
        decreases dims@.len() - n,
    {
        proof {
            lemma_offset_bound(dims@, index@, (n + 1) as nat);
            lemma_volume_prefix(dims@, (n + 1) as nat);
            let o = offset(dims@, index@, n as nat);
            let d = dims@[n as int] as nat;
            assert(o * d + index@[n as int] == offset(dims@, index@, (n + 1) as nat));
        }
        at = at * dims[n] + index[n];
        n += 1;
    }
    proof {
        lemma_offset_bound(dims@, index@, dims@.len());
    }
    at
}

fn find_digits(dims: &Vec<usize>, at: usize) -> (index: Vec<usize>)
    requires
        at < volume(dims@, dims@.len()),
    ensures
        index@ == digits(dims@, at as nat, dims@.len()),
{
    let mut reversed: Vec<usize> = Vec::new();
    let mut rest: usize = at;
    let mut n: usize = dims.len();
    while n > 0
        invariant
            n <= dims@.len(),
            at < volume(dims@, dims@.len()),
            rest < volume(dims@, n as nat),
            reversed@.len() == dims@.len() - n,
            digits(dims@, at as nat, dims@.len()) == digits(dims@, rest as nat, n as nat)
                + reversed@.reverse(),
        decreases n,
    {
        proof {
            let d = dims@[n - 1] as nat;
            let v = volume(dims@, (n - 1) as nat);
            assert(d > 0) by (nonlinear_arith)
                requires
                    rest < v * d,
            ;
            let q = rest as nat / d;
            assert(q < v) by (nonlinear_arith)
                requires
                    rest < v * d,
                    d > 0,
                    q == rest as nat / d,
            ;
        }
        let digit: usize = rest % dims[n - 1];
        let ghost before = reversed@;
        proof {
            assert(digits(dims@, rest as nat, n as nat) + before.reverse() =~= digits(
                dims@,
                (rest / dims@[n - 1]) as nat,
                (n - 1) as nat,
            ) + before.push(digit).reverse());
        }
        reversed.push(digit);
        rest = rest / dims[n - 1];
        n -= 1;
    }
    let mut index: Vec<usize> = Vec::new();
    let mut k: usize = reversed.len();
    while k > 0
        invariant
            k <= reversed@.len(),
            index@ == reversed@.reverse().take(reversed@.len() - k),
        decreases k,
    {
        index.push(reversed[k - 1]);
        k -= 1;
        assert(index@ =~= reversed@.reverse().take(reversed@.len() - k));
    }
    proof {
        assert(index@ =~= reversed@.reverse());
        assert(digits(dims@, rest as nat, 0) + reversed@.reverse() =~= reversed@.reverse());
    }
    index
}

pub(crate) fn find_place(order: &Vec<usize>, axis: usize) -> (j: usize)
    requires
        is_order(order@),
        axis < order@.len(),
    ensures
        j < order@.len(),
        j == place_in(order@, axis as int),
{
    proof {
        lemma_order_covers(order@, axis as int);
    }
    let mut j: usize = 0;
    while order[j] != axis
        invariant
            is_order(order@),
            axis < order@.len(),
            0 <= place_in(order@, axis as int) < order@.len(),
            order@[place_in(order@, axis as int)] == axis,
            j <= place_in(order@, axis as int),
        decreases order@.len() - j,
    {
        j += 1;
    }
    proof {
        lemma_place_in(order@, j as int);
    }
    j
}

/// What an index of the result of an operation reads: an index of its source, or
/// nothing where padding stands.
pub fn apply_movement_op(op: &Movement, dims: &Vec<usize>, index: &Vec<usize>) -> (source: Option<
    Vec<usize>,
>)
    requires
        takes(*op, dims@),
        volume(dims@, dims@.len()) <= usize::MAX,
        is_inside(moved_dims(*op, dims@), index@),
    ensures
        match source_index(*op, dims@, index@) {
            Some(found) => source is Some && source->0@ == found,
            None => source is None,
        },
{
    match op {
        Movement::Reshape(sizes) => {
            let at: usize = find_offset(sizes, index);
            Some(find_digits(dims, at))
        },
        Movement::Permute(order) => {
            let mut source: Vec<usize> = Vec::new();
            let mut i: usize = 0;
            while i < dims.len()
                invariant
                    i <= dims@.len(),
                    is_order(order@),
                    order@.len() == dims@.len(),
                    index@.len() == dims@.len(),
                    source@.len() == i,
                    forall|k: int| 0 <= k < i ==> source@[k] == index@[place_in(order@, k)],
                decreases dims@.len() - i,
            {
                let j: usize = find_place(order, i);
                source.push(index[j]);
                i += 1;
            }
            assert(source@ =~= source_index(*op, dims@, index@)->0);
            Some(source)
        },
        Movement::Expand(sizes) => {
            let mut source: Vec<usize> = Vec::new();
            let rank: usize = sizes.len();
            let extra: usize = rank - dims.len();
            let mut i: usize = 0;
            while i < dims.len()
                invariant
                    i <= dims@.len(),
                    rank == sizes@.len(),
                    extra == rank - dims@.len(),
                    index@.len() == sizes@.len(),
                    source@.len() == i,
                    forall|k: int|
                        0 <= k < i ==> source@[k] == (if dims@[k] == 1 {
                            0usize
                        } else {
                            index@[extra + k]
                        }),
                decreases dims@.len() - i,
            {
                if dims[i] == 1 {
                    source.push(0);
                } else {
                    source.push(index[extra + i]);
                }
                i += 1;
            }
            assert(source@ =~= source_index(*op, dims@, index@)->0);
            Some(source)
        },
        Movement::Shrink { offsets, sizes } => {
            let mut source: Vec<usize> = Vec::new();
            let mut i: usize = 0;
            while i < dims.len()
                invariant
                    i <= dims@.len(),
                    offsets@.len() == dims@.len(),
                    is_inside(sizes@, index@),
                    sizes@.len() == dims@.len(),
                    forall|k: int|
                        0 <= k < dims@.len() ==> (#[trigger] offsets@[k]) + sizes@[k] <= dims@[k],
                    source@.len() == i,
                    forall|k: int|
                        0 <= k < i ==> source@[k] == (index@[k] + offsets@[k]) as usize,
                decreases dims@.len() - i,
            {
                assert(index@[i as int] < sizes@[i as int]);
                assert(offsets@[i as int] + sizes@[i as int] <= dims@[i as int]);
                source.push(index[i] + offsets[i]);
                i += 1;
            }
            assert(source@ =~= source_index(*op, dims@, index@)->0);
            Some(source)
        },
        Movement::Flip(axes) => {
            let mut source: Vec<usize> = Vec::new();
            let mut i: usize = 0;
            while i < dims.len()
                invariant
                    i <= dims@.len(),
                    axes@.len() == dims@.len(),
                    is_inside(dims@, index@),
                    source@.len() == i,
                    forall|k: int|
                        0 <= k < i ==> source@[k] == (if axes@[k] {
                            (dims@[k] - 1 - index@[k]) as usize
                        } else {
                            index@[k]
                        }),
                decreases dims@.len() - i,
            {
                assert(index@[i as int] < dims@[i as int]);
                if axes[i] {
                    source.push(dims[i] - 1 - index[i]);
                } else {
                    source.push(index[i]);
                }
                i += 1;
            }
            assert(source@ =~= source_index(*op, dims@, index@)->0);
            Some(source)
        },
        Movement::Pad { begin, end } => {
            let mut source: Vec<usize> = Vec::new();
            let mut i: usize = 0;
            while i < dims.len()
                invariant
                    i <= dims@.len(),
                    begin@.len() == dims@.len(),
                    index@.len() == dims@.len(),
                    source@.len() == i,
                    *op == (Movement::Pad { begin: *begin, end: *end }),
                    forall|k: int|
                        0 <= k < i ==> begin@[k] <= #[trigger] index@[k] < begin@[k] + dims@[k],
                    forall|k: int|
                        0 <= k < i ==> source@[k] == (index@[k] - begin@[k]) as usize,
                decreases dims@.len() - i,
            {
                if index[i] < begin[i] || index[i] - begin[i] >= dims[i] {
                    assert(!(begin@[i as int] <= index@[i as int] < begin@[i as int]
                        + dims@[i as int]));
                    return None;
                }
                source.push(index[i] - begin[i]);
                i += 1;
            }
            assert(source@ =~= source_index(*op, dims@, index@)->0);
            Some(source)
        },
    }
}

/// Whether each operation of a chain takes what the one before gives, from `k`
/// on, and whether it all fits a machine integer.
pub open spec fn is_chain(ops: Seq<Movement>, dims: Seq<usize>, n: nat) -> bool
    decreases n,
{
    if n == 0 {
        volume(dims, dims.len()) <= usize::MAX
    } else {
        &&& is_chain(ops, dims, (n - 1) as nat)
        &&& takes(ops[n - 1], chain_dims(ops, dims, (n - 1) as nat))
        &&& volume(chain_dims(ops, dims, n), chain_dims(ops, dims, n).len()) <= usize::MAX
    }
}

/// The sizes that the first `n` operations of a chain give.
pub open spec fn chain_dims(ops: Seq<Movement>, dims: Seq<usize>, n: nat) -> Seq<usize>
    decreases n,
{
    if n == 0 {
        dims
    } else {
        moved_dims(ops[n - 1], chain_dims(ops, dims, (n - 1) as nat))
    }
}

/// The place in flat storage that an index of the result of the first `n`
/// operations reads.
pub open spec fn chain_offset(
    ops: Seq<Movement>,
    dims: Seq<usize>,
    index: Seq<usize>,
    n: nat,
) -> Option<nat>
    decreases n,
{
    if n == 0 {
        Some(offset(dims, index, dims.len()))
    } else {
        match source_index(ops[n - 1], chain_dims(ops, dims, (n - 1) as nat), index) {
            Some(source) => chain_offset(ops, dims, source, (n - 1) as nat),
            None => None,
        }
    }
}

fn find_moved_dims(op: &Movement, dims: &Vec<usize>) -> (sizes: Vec<usize>)
    requires
        takes(*op, dims@),
    ensures
        sizes@ == moved_dims(*op, dims@),
{
    match op {
        Movement::Reshape(sizes) | Movement::Expand(sizes) => copy_sizes(sizes),
        Movement::Shrink { offsets: _, sizes } => copy_sizes(sizes),
        Movement::Flip(_) => copy_sizes(dims),
        Movement::Permute(order) => {
            let mut sizes: Vec<usize> = Vec::new();
            let mut i: usize = 0;
            while i < dims.len()
                invariant
                    i <= dims@.len(),
                    is_order(order@),
                    order@.len() == dims@.len(),
                    sizes@.len() == i,
                    forall|k: int| 0 <= k < i ==> sizes@[k] == dims@[order@[k] as int],
                decreases dims@.len() - i,
            {
                sizes.push(dims[order[i]]);
                i += 1;
            }
            assert(sizes@ =~= moved_dims(*op, dims@));
            sizes
        },
        Movement::Pad { begin, end } => {
            let mut sizes: Vec<usize> = Vec::new();
            let mut i: usize = 0;
            while i < dims.len()
                invariant
                    i <= dims@.len(),
                    begin@.len() == dims@.len(),
                    end@.len() == dims@.len(),
                    forall|k: int|
                        0 <= k < dims@.len() ==> (#[trigger] begin@[k]) + dims@[k] + end@[k]
                            <= usize::MAX,
                    sizes@.len() == i,
                    forall|k: int|
                        0 <= k < i ==> sizes@[k] == (begin@[k] + dims@[k] + end@[k]) as usize,
                decreases dims@.len() - i,
            {
                assert(begin@[i as int] + dims@[i as int] + end@[i as int] <= usize::MAX);
                sizes.push(begin[i] + dims[i] + end[i]);
                i += 1;
            }
            assert(sizes@ =~= moved_dims(*op, dims@));
            sizes
        },
    }
}

fn copy_sizes(dims: &Vec<usize>) -> (sizes: Vec<usize>)
    ensures
        sizes@ == dims@,
{
    let mut sizes: Vec<usize> = Vec::new();
    let mut i: usize = 0;
    while i < dims.len()
        invariant
            i <= dims@.len(),
            sizes@ == dims@.take(i as int),
        decreases dims@.len() - i,
    {
        sizes.push(dims[i]);
        i += 1;
        assert(sizes@ =~= dims@.take(i as int));
    }
    assert(sizes@ =~= dims@);
    sizes
}

/// Folds a chain of operations into the place in flat storage that an index of
/// its result reads; nothing is read where padding stands.
pub fn fold_movements(ops: &Vec<Movement>, dims: &Vec<usize>, index: &Vec<usize>) -> (at: Option<
    usize,
>)
    requires
        is_chain(ops@, dims@, ops@.len()),
        is_inside(chain_dims(ops@, dims@, ops@.len()), index@),
    ensures
        match chain_offset(ops@, dims@, index@, ops@.len()) {
            Some(found) => at == Some(found as usize) && found < volume(dims@, dims@.len())
                && found <= usize::MAX,
            None => at is None,
        },
{
    fold_first(ops, ops.len(), dims, index)
}

proof fn lemma_is_chain_prefix(ops: Seq<Movement>, dims: Seq<usize>, n: nat, m: nat)
    requires
        n <= m,
        is_chain(ops, dims, m),
    ensures
        is_chain(ops, dims, n),
        volume(chain_dims(ops, dims, n), chain_dims(ops, dims, n).len()) <= usize::MAX,
    decreases m,
{
    if n < m {
        lemma_is_chain_prefix(ops, dims, n, (m - 1) as nat);
    }
}

fn dims_of_first(ops: &Vec<Movement>, n: usize, dims: &Vec<usize>) -> (sizes: Vec<usize>)
    requires
        n <= ops@.len(),
        is_chain(ops@, dims@, n as nat),
    ensures
        sizes@ == chain_dims(ops@, dims@, n as nat),
{
    let mut sizes = copy_sizes(dims);
    let mut k: usize = 0;
    while k < n
        invariant
            k <= n <= ops@.len(),
            is_chain(ops@, dims@, n as nat),
            sizes@ == chain_dims(ops@, dims@, k as nat),
        decreases n - k,
    {
        proof {
            lemma_is_chain_prefix(ops@, dims@, (k + 1) as nat, n as nat);
        }
        sizes = find_moved_dims(&ops[k], &sizes);
        k += 1;
    }
    sizes
}

fn fold_first(ops: &Vec<Movement>, n: usize, dims: &Vec<usize>, index: &Vec<usize>) -> (at: Option<
    usize,
>)
    requires
        n <= ops@.len(),
        is_chain(ops@, dims@, n as nat),
        is_inside(chain_dims(ops@, dims@, n as nat), index@),
    ensures
        match chain_offset(ops@, dims@, index@, n as nat) {
            Some(found) => at == Some(found as usize) && found < volume(dims@, dims@.len())
                && found <= usize::MAX,
            None => at is None,
        },
    decreases n,
{
    if n == 0 {
        Some(find_offset(dims, index))
    } else {
        let sizes = dims_of_first(ops, n - 1, dims);
        proof {
            lemma_is_chain_prefix(ops@, dims@, (n - 1) as nat, n as nat);
            lemma_source_is_inside(ops@[n - 1], sizes@, index@);
        }
        match apply_movement_op(&ops[n - 1], &sizes, index) {
            Some(source) => fold_first(ops, n - 1, dims, &source),
            None => None,
        }
    }
}

} // verus!
