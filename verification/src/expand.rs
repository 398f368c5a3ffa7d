//! Unrolled loops as axes of the values that they compute.

use vstd::prelude::*;

use crate::algebra::{element_count, elements, lemma_elements_not_negative};
use crate::graph::{AxisId, AxisType, GROUP_LOOP};

verus! {

/// The loop over groups gets a name of its own: it is not an axis that comes
/// from no other, nor either half of a split axis, and loops over the groups
/// of different axes have different names.
pub proof fn lemma_group_loop_does_not_collide(axis: Seq<usize>, other: Seq<usize>, number: usize)
    requires
        axis.len() > 0,
    ensures
        axis.push(GROUP_LOOP) != seq![number],
        axis.push(GROUP_LOOP) != axis,
        axis.push(GROUP_LOOP) != axis.push(0),
        axis.push(GROUP_LOOP) != axis.push(1),
        axis != other ==> axis.push(GROUP_LOOP) != other.push(GROUP_LOOP),
{
    assert(axis.push(GROUP_LOOP).len() != seq![number].len());
    assert(axis.push(GROUP_LOOP).len() != axis.len());
    assert(axis.push(GROUP_LOOP)[axis.len() as int] == GROUP_LOOP);
    assert(axis.push(0)[axis.len() as int] == 0);
    assert(axis.push(1)[axis.len() as int] == 1);
    if axis.push(GROUP_LOOP) == other.push(GROUP_LOOP) {
        assert(axis =~= axis.push(GROUP_LOOP).drop_last());
        assert(other =~= other.push(GROUP_LOOP).drop_last());
    }
}

/// Whether loops of a kind become axes of values.
pub open spec fn is_shaped(kind: AxisType) -> bool {
    kind == AxisType::Upcast || kind == AxisType::Unroll
}

/// The coordinate of an axis: its place among the axes of the first `n`
/// places.
pub open spec fn place_of(map: Seq<AxisId>, axis: AxisId, n: nat) -> Option<usize>
    decreases n,
{
    if n == 0 {
        None
    } else {
        match place_of(map, axis, (n - 1) as nat) {
            Some(at) => Some(at),
            None => if map[n - 1] == axis {
                Some((n - 1) as usize)
            } else {
                None
            },
        }
    }
}

/// The coordinate of an axis.
pub open spec fn coordinate(map: Seq<AxisId>, axis: AxisId) -> Option<usize> {
    place_of(map, axis, map.len())
}

/// The coordinate of an axis, if it has one.
pub fn find_coordinate(map: &Vec<AxisId>, axis: AxisId) -> (at: Option<usize>)
    ensures
        at == coordinate(map@, axis),
        match at {
            Some(k) => k < map@.len() && map@[k as int] == axis,
            None => !map@.contains(axis),
        },
{
    let mut found: Option<usize> = None;
    let mut n: usize = 0;
    while n < map.len()
        invariant
            n <= map@.len(),
            found == place_of(map@, axis, n as nat),
            match found {
                Some(k) => k < map@.len() && map@[k as int] == axis,
                None => forall|i: int| 0 <= i < n ==> (#[trigger] map@[i]) != axis,
            },
        decreases map@.len() - n,
    {
        if found.is_none() && map[n] == axis {
            found = Some(n);
        }
        n += 1;
    }
    found
}

/// Axes with the extents that an operation takes of them.
pub open spec fn slots(
    map: Seq<AxisId>,
    shape: Seq<usize>,
    axes: Seq<(AxisId, usize)>,
    n: nat,
) -> Option<Seq<usize>>
    decreases n,
{
    if n == 0 {
        Some(Seq::empty())
    } else {
        match (slots(map, shape, axes, (n - 1) as nat), coordinate(map, axes[n - 1].0)) {
            (Some(rest), Some(at)) => if at < shape.len() && shape[at as int] == axes[n - 1].1
                && !rest.contains(at) {
                Some(rest.push(at))
            } else {
                None
            },
            _ => None,
        }
    }
}

/// The sizes of a shape at the first `n` coordinates, without those taken.
pub open spec fn remaining(shape: Seq<usize>, taken: Seq<usize>, n: nat) -> Seq<usize>
    decreases n,
{
    if n == 0 {
        Seq::empty()
    } else {
        let rest = remaining(shape, taken, (n - 1) as nat);
        if taken.contains((n - 1) as usize) {
            rest
        } else {
            rest.push(shape[n - 1])
        }
    }
}

/// The extents of the first `n` axes.
pub open spec fn extents(axes: Seq<(AxisId, usize)>, n: nat) -> Seq<usize> {
    Seq::new(n, |i: int| axes[i].1)
}

/// A shape with axes taken out of it and put behind the others as one; nothing
/// where an axis has no coordinate, or another extent than the shape has.
pub open spec fn contracted(
    map: Seq<AxisId>,
    shape: Seq<usize>,
    axes: Seq<(AxisId, usize)>,
) -> Option<Seq<usize>> {
    match slots(map, shape, axes, axes.len()) {
        Some(taken) => {
            let lanes = elements(extents(axes, axes.len()));
            if shape.len() == map.len() && lanes <= usize::MAX {
                Some(remaining(shape, taken, shape.len()).push(lanes as usize))
            } else {
                None
            }
        },
        None => None,
    }
}

/// A shape with axes put back where they belong: the first `n` sizes, the
/// others in the order in which they come.
pub open spec fn put_back(
    outer: Seq<usize>,
    taken: Seq<usize>,
    sizes: Seq<usize>,
    n: nat,
) -> Seq<usize>
    decreases n,
{
    if n == 0 {
        Seq::empty()
    } else {
        let rest = put_back(outer, taken, sizes, (n - 1) as nat);
        let at = (n - 1) as usize;
        if taken.contains(at) {
            rest.push(sizes[taken.index_of(at)])
        } else {
            rest.push(outer[untaken(taken, (n - 1) as nat) as int])
        }
    }
}

/// The number of the first `n` coordinates that are not taken.
pub open spec fn untaken(taken: Seq<usize>, n: nat) -> nat
    decreases n,
{
    if n == 0 {
        0
    } else {
        untaken(taken, (n - 1) as nat) + (if taken.contains((n - 1) as usize) {
            0nat
        } else {
            1nat
        })
    }
}

/// The coordinates of axes, if each of them has one of its own.
pub open spec fn places(map: Seq<AxisId>, axes: Seq<(AxisId, usize)>, n: nat) -> Option<
    Seq<usize>,
>
    decreases n,
{
    if n == 0 {
        Some(Seq::empty())
    } else {
        match (places(map, axes, (n - 1) as nat), coordinate(map, axes[n - 1].0)) {
            (Some(rest), Some(at)) => if !rest.contains(at) {
                Some(rest.push(at))
            } else {
                None
            },
            _ => None,
        }
    }
}

/// A shape whose last size is that of axes, with the axes put back where they
/// belong; nothing where the sizes do not match.
pub open spec fn unrolled(
    map: Seq<AxisId>,
    shape: Seq<usize>,
    axes: Seq<(AxisId, usize)>,
) -> Option<Seq<usize>> {
    match places(map, axes, axes.len()) {
        Some(taken) => if shape.len() >= 1 && shape.last() == elements(extents(axes, axes.len()))
            && shape.len() - 1 == untaken(taken, map.len()) {
            Some(put_back(shape.drop_last(), taken, extents(axes, axes.len()), map.len()))
        } else {
            None
        },
        None => None,
    }
}

pub(crate) proof fn lemma_slots_are_places(
    map: Seq<AxisId>,
    shape: Seq<usize>,
    axes: Seq<(AxisId, usize)>,
    n: nat,
)
    requires
        n <= axes.len(),
        slots(map, shape, axes, n) is Some,
    ensures
        places(map, axes, n) == slots(map, shape, axes, n),
        slots(map, shape, axes, n).unwrap().len() == n,
        slots(map, shape, axes, n).unwrap().no_duplicates(),
        forall|i: int|
            0 <= i < n ==> (#[trigger] slots(map, shape, axes, n).unwrap()[i]) < shape.len()
                && shape[slots(map, shape, axes, n).unwrap()[i] as int] == axes[i].1,
    decreases n,
{
    if n > 0 {
        lemma_slots_are_places(map, shape, axes, (n - 1) as nat);
        let rest = slots(map, shape, axes, (n - 1) as nat).unwrap();
        let all = slots(map, shape, axes, n).unwrap();
        assert forall|i: int, j: int| 0 <= i < j < n implies all[i] != all[j] by {
            if j == n - 1 {
                assert(rest[i] == all[i]);
                if all[i] == all[j] {
                    assert(rest.contains(all[j]));
                }
            } else {
                assert(rest[i] == all[i] && rest[j] == all[j]);
            }
        }
        assert forall|i: int| 0 <= i < n implies (#[trigger] all[i]) < shape.len()
            && shape[all[i] as int] == axes[i].1 by {
            if i < n - 1 {
                assert(all[i] == rest[i]);
            }
        }
    }
}

pub(crate) proof fn lemma_remaining(shape: Seq<usize>, taken: Seq<usize>, n: nat)
    requires
        n <= shape.len(),
    ensures
        remaining(shape, taken, n).len() == untaken(taken, n),
    decreases n,
{
    if n > 0 {
        lemma_remaining(shape, taken, (n - 1) as nat);
    }
}

pub(crate) proof fn lemma_remaining_prefix(shape: Seq<usize>, taken: Seq<usize>, n: nat, m: nat)
    requires
        n < m <= shape.len(),
        !taken.contains(n as usize),
    ensures
        untaken(taken, n) < untaken(taken, m),
        remaining(shape, taken, m)[untaken(taken, n) as int] == shape[n as int],
    decreases m,
{
    lemma_remaining(shape, taken, n);
    lemma_remaining(shape, taken, (m - 1) as nat);
    if m - 1 == n {
    } else {
        lemma_remaining_prefix(shape, taken, n, (m - 1) as nat);
    }
}

proof fn lemma_put_back(
    map: Seq<AxisId>,
    shape: Seq<usize>,
    axes: Seq<(AxisId, usize)>,
    n: nat,
)
    requires
        shape.len() <= usize::MAX,
        n <= shape.len(),
        slots(map, shape, axes, axes.len()) is Some,
    ensures
        put_back(
            remaining(shape, slots(map, shape, axes, axes.len()).unwrap(), shape.len()),
            slots(map, shape, axes, axes.len()).unwrap(),
            extents(axes, axes.len()),
            n,
        ) == shape.take(n as int),
    decreases n,
{
    let taken = slots(map, shape, axes, axes.len()).unwrap();
    lemma_slots_are_places(map, shape, axes, axes.len());
    let outer = remaining(shape, taken, shape.len());
    if n > 0 {
        lemma_put_back(map, shape, axes, (n - 1) as nat);
        let at = (n - 1) as usize;
        if taken.contains(at) {
            let k = taken.index_of(at);
            assert(taken[k] == at);
            assert(shape[taken[k] as int] == axes[k].1);
        } else {
            lemma_remaining_prefix(shape, taken, (n - 1) as nat, shape.len());
        }
    }
    assert(put_back(outer, taken, extents(axes, axes.len()), n) =~= shape.take(n as int));
}

/// Putting axes back undoes taking them out: every axis keeps its identity.
pub proof fn lemma_unroll_undoes_contract(
    map: Seq<AxisId>,
    shape: Seq<usize>,
    axes: Seq<(AxisId, usize)>,
)
    requires
        shape.len() <= usize::MAX,
        contracted(map, shape, axes) is Some,
    ensures
        unrolled(map, contracted(map, shape, axes).unwrap(), axes) == Some(shape),
{
    let taken = slots(map, shape, axes, axes.len()).unwrap();
    let done = contracted(map, shape, axes).unwrap();
    lemma_slots_are_places(map, shape, axes, axes.len());
    lemma_remaining(shape, taken, shape.len());
    lemma_put_back(map, shape, axes, shape.len());
    lemma_elements_not_negative(extents(axes, axes.len()));
    assert(done.drop_last() =~= remaining(shape, taken, shape.len()));
    assert(shape.take(shape.len() as int) =~= shape);
}

/// The extents of axes, and their product.
pub(crate) fn count_lanes(axes: &Vec<(AxisId, usize)>) -> (result: (Vec<usize>, Option<usize>))
    ensures
        result.0@ == extents(axes@, axes@.len()),
        match result.1 {
            Some(lanes) => lanes == elements(result.0@),
            None => elements(result.0@) > usize::MAX,
        },
{
    let mut sizes: Vec<usize> = Vec::new();
    let mut k: usize = 0;
    while k < axes.len()
        invariant
            k <= axes@.len(),
            sizes@ == extents(axes@, k as nat),
        decreases axes@.len() - k,
    {
        sizes.push(axes[k].1);
        k += 1;
        assert(sizes@ =~= extents(axes@, k as nat));
    }
    let lanes = element_count(&sizes);
    (sizes, lanes)
}

pub(crate) fn holds(list: &Vec<usize>, value: usize) -> (r: bool)
    ensures
        r == list@.contains(value),
{
    let mut k: usize = 0;
    while k < list.len()
        invariant
            k <= list@.len(),
            forall|j: int| 0 <= j < k ==> list@[j] != value,
        decreases list@.len() - k,
    {
        if list[k] == value {
            return true;
        }
        k += 1;
    }
    false
}

proof fn lemma_slots_missing(
    map: Seq<AxisId>,
    shape: Seq<usize>,
    axes: Seq<(AxisId, usize)>,
    k: nat,
    n: nat,
)
    requires
        k <= n,
        slots(map, shape, axes, k) is None,
    ensures
        slots(map, shape, axes, n) is None,
    decreases n,
{
    if k < n {
        lemma_slots_missing(map, shape, axes, k, (n - 1) as nat);
    }
}

pub(crate) fn find_slots(map: &Vec<AxisId>, shape: &Vec<usize>, axes: &Vec<(AxisId, usize)>) -> (taken:
    Option<Vec<usize>>)
    ensures
        match taken {
            Some(list) => slots(map@, shape@, axes@, axes@.len()) == Some(list@),
            None => slots(map@, shape@, axes@, axes@.len()) is None,
        },
{
    let mut taken: Vec<usize> = Vec::new();
    let mut n: usize = 0;
    while n < axes.len()
        invariant
            n <= axes@.len(),
            slots(map@, shape@, axes@, n as nat) == Some(taken@),
        decreases axes@.len() - n,
    {
        let fits: Option<usize> = match find_coordinate(map, axes[n].0) {
            Some(at) => {
                if at < shape.len() && shape[at] == axes[n].1 && !holds(&taken, at) {
                    Some(at)
                } else {
                    None
                }
            },
            None => None,
        };
        match fits {
            Some(at) => {
                taken.push(at);
            },
            None => {
                proof {
                    lemma_slots_missing(map@, shape@, axes@, (n + 1) as nat, axes@.len());
                }
                return None;
            },
        }
        n += 1;
    }
    Some(taken)
}

/// Takes axes out of a shape and puts them behind the others as one; see
/// `contracted`.
pub fn contract_axis(map: &Vec<AxisId>, shape: &Vec<usize>, axes: &Vec<(AxisId, usize)>) -> (
result: Option<Vec<usize>>)
    ensures
        match result {
            Some(list) => contracted(map@, shape@, axes@) == Some(list@),
            None => contracted(map@, shape@, axes@) is None,
        },
{
    let taken: Vec<usize> = match find_slots(map, shape, axes) {
        Some(taken) => taken,
        None => {
            return None;
        },
    };
    let (_sizes, lanes) = count_lanes(axes);
    let lanes: usize = match lanes {
        Some(lanes) => lanes,
        None => {
            return None;
        },
    };
    if shape.len() != map.len() {
        return None;
    }
    let mut list: Vec<usize> = Vec::new();
    let mut n: usize = 0;
    while n < shape.len()
        invariant
            n <= shape@.len(),
            list@ == remaining(shape@, taken@, n as nat),
        decreases shape@.len() - n,
    {
        if !holds(&taken, n) {
            list.push(shape[n]);
        }
        n += 1;
    }
    list.push(lanes);
    Some(list)
}

proof fn lemma_places_missing(
    map: Seq<AxisId>,
    axes: Seq<(AxisId, usize)>,
    k: nat,
    n: nat,
)
    requires
        k <= n,
        places(map, axes, k) is None,
    ensures
        places(map, axes, n) is None,
    decreases n,
{
    if k < n {
        lemma_places_missing(map, axes, k, (n - 1) as nat);
    }
}

pub(crate) fn find_places(map: &Vec<AxisId>, axes: &Vec<(AxisId, usize)>) -> (taken: Option<Vec<usize>>)
    ensures
        match taken {
            Some(list) => places(map@, axes@, axes@.len()) == Some(list@) && list@.len()
                == axes@.len(),
            None => places(map@, axes@, axes@.len()) is None,
        },
{
    let mut taken: Vec<usize> = Vec::new();
    let mut n: usize = 0;
    while n < axes.len()
        invariant
            n <= axes@.len(),
            taken@.len() == n,
            places(map@, axes@, n as nat) == Some(taken@),
        decreases axes@.len() - n,
    {
        let fits: Option<usize> = match find_coordinate(map, axes[n].0) {
            Some(at) => {
                if holds(&taken, at) {
                    None
                } else {
                    Some(at)
                }
            },
            None => None,
        };
        match fits {
            Some(at) => {
                taken.push(at);
            },
            None => {
                proof {
                    lemma_places_missing(map@, axes@, (n + 1) as nat, axes@.len());
                }
                return None;
            },
        }
        n += 1;
    }
    Some(taken)
}

pub(crate) fn first_index(list: &Vec<usize>, value: usize) -> (at: usize)
    requires
        list@.contains(value),
    ensures
        at < list@.len(),
        list@[at as int] == value,
{
    let mut k: usize = 0;
    while k < list.len()
        invariant
            k <= list@.len(),
            list@.contains(value),
            forall|j: int| 0 <= j < k ==> list@[j] != value,
        decreases list@.len() - k,
    {
        if list[k] == value {
            return k;
        }
        k += 1;
    }
    proof {
        let j = choose|j: int| 0 <= j < list@.len() && list@[j] == value;
        assert(false);
    }
    0
}

pub(crate) proof fn lemma_places_distinct(map: Seq<AxisId>, axes: Seq<(AxisId, usize)>, n: nat)
    requires
        n <= axes.len(),
        places(map, axes, n) is Some,
    ensures
        places(map, axes, n).unwrap().no_duplicates(),
        places(map, axes, n).unwrap().len() == n,
    decreases n,
{
    if n > 0 {
        lemma_places_distinct(map, axes, (n - 1) as nat);
        let rest = places(map, axes, (n - 1) as nat).unwrap();
        let all = places(map, axes, n).unwrap();
        assert forall|i: int, j: int| 0 <= i < j < n implies all[i] != all[j] by {
            assert(rest[i] == all[i]);
            if j < n - 1 {
                assert(rest[j] == all[j]);
            } else if all[i] == all[j] {
                assert(rest.contains(all[j]));
            }
        }
    }
}

pub(crate) proof fn lemma_untaken_grows(taken: Seq<usize>, n: nat, m: nat)
    requires
        n <= m,
    ensures
        untaken(taken, n) <= untaken(taken, m),
    decreases m,
{
    if n < m {
        lemma_untaken_grows(taken, n, (m - 1) as nat);
    }
}

/// Puts axes back where they belong in a shape; see `unrolled`.
pub fn unroll_axis(map: &Vec<AxisId>, shape: &Vec<usize>, axes: &Vec<(AxisId, usize)>) -> (
result: Option<Vec<usize>>)
    ensures
        match result {
            Some(list) => unrolled(map@, shape@, axes@) == Some(list@),
            None => unrolled(map@, shape@, axes@) is None,
        },
{
    let taken: Vec<usize> = match find_places(map, axes) {
        Some(taken) => taken,
        None => {
            return None;
        },
    };
    let (sizes, lanes) = count_lanes(axes);
    let lanes: usize = match lanes {
        Some(lanes) => lanes,
        None => {
            return None;
        },
    };
    let count: usize = shape.len();
    if count == 0 || shape[count - 1] != lanes {
        return None;
    }
    let mut free: usize = 0;
    let mut n: usize = 0;
    while n < map.len()
        invariant
            n <= map@.len(),
            free <= n,
            free == untaken(taken@, n as nat),
        decreases map@.len() - n,
    {
        if !holds(&taken, n) {
            free += 1;
        }
        n += 1;
    }
    if count - 1 != free {
        return None;
    }
    proof {
        lemma_places_distinct(map@, axes@, axes@.len());
    }
    let ghost outer = shape@.drop_last();
    let mut list: Vec<usize> = Vec::new();
    let mut used: usize = 0;
    let mut n: usize = 0;
    while n < map.len()
        invariant
            n <= map@.len(),
            count == shape@.len(),
            count >= 1,
            outer == shape@.drop_last(),
            count - 1 == untaken(taken@, map@.len()),
            used == untaken(taken@, n as nat),
            taken@.no_duplicates(),
            taken@.len() == sizes@.len(),
            list@ == put_back(outer, taken@, sizes@, n as nat),
        decreases map@.len() - n,
    {
        if holds(&taken, n) {
            let k: usize = first_index(&taken, n);
            proof {
                let j = taken@.index_of(n);
                assert(taken@[j] == n && taken@[k as int] == n);
                assert(j == k);
            }
            list.push(sizes[k]);
        } else {
            proof {
                lemma_untaken_grows(taken@, (n + 1) as nat, map@.len());
                assert(outer[used as int] == shape@[used as int]);
            }
            list.push(shape[used]);
            used += 1;
        }
        n += 1;
    }
    Some(list)
}

/// The shape that two shapes broadcast to, axis by axis: sizes are equal, or
/// one of them is one.
pub open spec fn broadcast_dims(a: Seq<usize>, b: Seq<usize>, n: nat) -> Option<Seq<usize>>
    decreases n,
{
    if n == 0 {
        Some(Seq::empty())
    } else {
        match broadcast_dims(a, b, (n - 1) as nat) {
            Some(rest) => if a[n - 1] == b[n - 1] || b[n - 1] == 1 {
                Some(rest.push(a[n - 1]))
            } else if a[n - 1] == 1 {
                Some(rest.push(b[n - 1]))
            } else {
                None
            },
            None => None,
        }
    }
}

/// The sizes of a shape but the last; of a scalar none.
pub open spec fn leading(shape: Seq<usize>) -> Seq<usize> {
    if shape.len() == 0 {
        shape
    } else {
        shape.drop_last()
    }
}

/// The shape of a product of matrix fragments: the operands' leading sizes
/// broadcast, and behind them the lanes of the result.
pub open spec fn product_shape(a: Seq<usize>, b: Seq<usize>, lanes: usize) -> Option<Seq<usize>> {
    if leading(a).len() == leading(b).len() {
        match broadcast_dims(leading(a), leading(b), leading(a).len()) {
            Some(outer) => Some(outer.push(lanes)),
            None => None,
        }
    } else {
        None
    }
}

proof fn lemma_broadcast_missing(a: Seq<usize>, b: Seq<usize>, k: nat, n: nat)
    requires
        k <= n,
        broadcast_dims(a, b, k) is None,
    ensures
        broadcast_dims(a, b, n) is None,
    decreases n,
{
    if k < n {
        lemma_broadcast_missing(a, b, k, (n - 1) as nat);
    }
}

/// The shape of a product of matrix fragments; see `product_shape`.
pub fn wmma_shape(a: &Vec<usize>, b: &Vec<usize>, lanes: usize) -> (shape: Option<Vec<usize>>)
    ensures
        match shape {
            Some(list) => product_shape(a@, b@, lanes) == Some(list@),
            None => product_shape(a@, b@, lanes) is None,
        },
{
    let left: usize = if a.len() == 0 {
        0
    } else {
        a.len() - 1
    };
    let right: usize = if b.len() == 0 {
        0
    } else {
        b.len() - 1
    };
    if left != right {
        return None;
    }
    let ghost x = leading(a@);
    let ghost y = leading(b@);
    let mut list: Vec<usize> = Vec::new();
    let mut n: usize = 0;
    while n < left
        invariant
            n <= left,
            x == leading(a@),
            y == leading(b@),
            left == x.len(),
            left == y.len(),
            left <= a@.len(),
            left <= b@.len(),
            forall|i: int| 0 <= i < left ==> x[i] == a@[i] && y[i] == b@[i],
            broadcast_dims(x, y, n as nat) == Some(list@),
        decreases left - n,
    {
        assert(x[n as int] == a@[n as int] && y[n as int] == b@[n as int]);
        if a[n] == b[n] || b[n] == 1 {
            list.push(a[n]);
        } else if a[n] == 1 {
            list.push(b[n]);
        } else {
            proof {
                lemma_broadcast_missing(x, y, (n + 1) as nat, left as nat);
            }
            return None;
        }
        n += 1;
    }
    list.push(lanes);
    Some(list)
}

/// The fragment of an operand that is read for the fragment `i` of a product,
/// counted in the order of memory along the first `n` leading axes: the same
/// along every axis on which the operand is not repeated.
pub open spec fn fragment(lead: Seq<usize>, outer: Seq<usize>, n: nat, i: int) -> int
    decreases n,
{
    if n == 0 {
        0
    } else {
        let size = outer[n - 1] as int;
        let rest = fragment(lead, outer, (n - 1) as nat, i / size);
        if lead[n - 1] == 1 {
            rest
        } else {
            rest * size + i % size
        }
    }
}

/// Whether the sizes of an operand are those of the product or one.
pub open spec fn repeats_to(lead: Seq<usize>, outer: Seq<usize>) -> bool {
    &&& lead.len() == outer.len()
    &&& forall|k: int|
        0 <= k < lead.len() ==> (#[trigger] lead[k] == outer[k] || lead[k] == 1)
}

/// What is multiplied for each fragment of a product: a fragment of the one
/// operand and a fragment of the other.
pub open spec fn fragments(a: Seq<usize>, b: Seq<usize>, outer: Seq<usize>) -> Seq<(usize, usize)> {
    Seq::new(
        elements(outer) as nat,
        |i: int|
            (
                fragment(leading(a), outer, outer.len(), i) as usize,
                fragment(leading(b), outer, outer.len(), i) as usize,
            ),
    )
}

pub(crate) proof fn lemma_broadcast_repeats(a: Seq<usize>, b: Seq<usize>, n: nat)
    requires
        n <= a.len(),
        n <= b.len(),
        broadcast_dims(a, b, n) is Some,
    ensures
        repeats_to(a.take(n as int), broadcast_dims(a, b, n)->0),
        repeats_to(b.take(n as int), broadcast_dims(a, b, n)->0),
    decreases n,
{
    if n > 0 {
        lemma_broadcast_repeats(a, b, (n - 1) as nat);
        let rest = broadcast_dims(a, b, (n - 1) as nat)->0;
        let outer = broadcast_dims(a, b, n)->0;
        assert forall|k: int| 0 <= k < n implies (#[trigger] a.take(n as int)[k] == outer[k]
            || a.take(n as int)[k] == 1) && (b.take(n as int)[k] == outer[k] || b.take(
            n as int,
        )[k] == 1) by {
            if k < n - 1 {
                assert(a.take(n - 1)[k] == a[k]);
                assert(b.take(n - 1)[k] == b[k]);
                assert(outer[k] == rest[k]);
            }
        }
    }
}

pub(crate) proof fn lemma_fragment(lead: Seq<usize>, outer: Seq<usize>, n: nat, i: int)
    requires
        repeats_to(lead, outer),
        n <= outer.len(),
        0 <= i < elements(outer.take(n as int)),
    ensures
        0 <= fragment(lead, outer, n, i) <= i,
    decreases n,
{
    if n > 0 {
        let size = outer[n - 1] as int;
        let rest = outer.take(n - 1);
        assert(outer.take(n as int).drop_last() =~= rest);
        lemma_elements_not_negative(rest);
        assert(elements(outer.take(n as int)) == elements(rest) * size);
        assert(size > 0) by (nonlinear_arith)
            requires
                0 <= i < elements(rest) * size,
                elements(rest) >= 0,
                size >= 0,
        ;
        assert(0 <= i / size < elements(rest)) by (nonlinear_arith)
            requires
                0 <= i < elements(rest) * size,
                size > 0,
        ;
        assert(i == i / size * size + i % size && 0 <= i % size) by (nonlinear_arith)
            requires
                size > 0,
        ;
        lemma_fragment(lead, outer, (n - 1) as nat, i / size);
        let before = fragment(lead, outer, (n - 1) as nat, i / size);
        assert(0 <= before * size <= i / size * size) by (nonlinear_arith)
            requires
                0 <= before <= i / size,
                size > 0,
        ;
        assert(before <= i) by (nonlinear_arith)
            requires
                0 <= before <= i / size,
                i / size * size <= i,
                size > 0,
        ;
    }
}

fn find_fragment(shape: &Vec<usize>, outer: &Vec<usize>, n: usize, i: usize) -> (at: usize)
    requires
        repeats_to(leading(shape@), outer@),
        n <= outer@.len(),
        i < elements(outer@.take(n as int)),
    ensures
        at == fragment(leading(shape@), outer@, n as nat, i as int),
    decreases n,
{
    if n == 0 {
        return 0;
    }
    let size: usize = outer[n - 1];
    let ghost rest = outer@.take(n - 1);
    proof {
        lemma_fragment(leading(shape@), outer@, n as nat, i as int);
        assert(outer@.take(n as int).drop_last() =~= rest);
        lemma_elements_not_negative(rest);
        assert(elements(outer@.take(n as int)) == elements(rest) * size);
        assert(size > 0) by (nonlinear_arith)
            requires
                0 <= i < elements(rest) * size,
                elements(rest) >= 0,
                size >= 0,
        ;
        assert(0 <= i as int / (size as int) < elements(rest)) by (nonlinear_arith)
            requires
                0 <= i < elements(rest) * size,
                size > 0,
        ;
        assert(leading(shape@)[n - 1] == shape@[n - 1]);
    }
    let before: usize = find_fragment(shape, outer, n - 1, i / size);
    if shape[n - 1] == 1 {
        before
    } else {
        proof {
            assert(i as int % size as int >= 0);
            lemma_fragment(leading(shape@), outer@, (n - 1) as nat, i as int / size as int);
            assert(before * size >= 0) by (nonlinear_arith)
                requires
                    before >= 0,
                    size >= 0,
            ;
        }
        before * size + i % size
    }
}

/// The products of single fragments that a product of operands with leading
/// axes is a stack of, for each the two fragments that it multiplies; nothing
/// where the operands do not broadcast, or the stack has no room. See
/// `fragments`.
pub fn wmma_fragments(a: &Vec<usize>, b: &Vec<usize>) -> (list: Option<Vec<(usize, usize)>>)
    ensures
        match (product_shape(a@, b@, 0), list) {
            (Some(shape), Some(pairs)) => pairs@ == fragments(a@, b@, shape.drop_last())
                && elements(shape.drop_last()) <= usize::MAX,
            (Some(shape), None) => elements(shape.drop_last()) > usize::MAX,
            (None, pairs) => pairs is None,
        },
{
    let mut outer = match wmma_shape(a, b, 0) {
        Some(shape) => shape,
        None => {
            return None;
        },
    };
    let ghost shape = outer@;
    outer.pop();
    assert(outer@ =~= shape.drop_last());
    proof {
        let x = leading(a@);
        let y = leading(b@);
        lemma_broadcast_repeats(x, y, x.len());
        assert(x.take(x.len() as int) =~= x);
        assert(y.take(x.len() as int) =~= y);
        assert(outer@ =~= broadcast_dims(x, y, x.len())->0);
        assert(outer@.take(outer@.len() as int) =~= outer@);
    }
    let count: usize = match element_count(&outer) {
        Some(count) => count,
        None => {
            return None;
        },
    };
    let mut pairs: Vec<(usize, usize)> = Vec::new();
    let mut i: usize = 0;
    while i < count
        invariant
            i <= count,
            count == elements(outer@),
            outer@.take(outer@.len() as int) == outer@,
            repeats_to(leading(a@), outer@),
            repeats_to(leading(b@), outer@),
            pairs@ == fragments(a@, b@, outer@).take(i as int),
        decreases count - i,
    {
        let left: usize = find_fragment(a, &outer, outer.len(), i);
        let right: usize = find_fragment(b, &outer, outer.len(), i);
        pairs.push((left, right));
        assert(pairs@ =~= fragments(a@, b@, outer@).take(i + 1));
        i += 1;
    }
    assert(pairs@ =~= fragments(a@, b@, outer@));
    Some(pairs)
}

/// The axes that the operands and the result of a product of matrix fragments
/// are unrolled along, with their extents.
#[derive(Debug)]
pub struct WmmaUpcastAxes {
    pub a: Vec<(AxisId, usize)>,
    pub b: Vec<(AxisId, usize)>,
    pub c: Vec<(AxisId, usize)>,
}

/// The axes of a product.
pub struct UpcastAxes {
    pub a: Seq<(AxisId, usize)>,
    pub b: Seq<(AxisId, usize)>,
    pub c: Seq<(AxisId, usize)>,
}

impl View for WmmaUpcastAxes {
    type V = UpcastAxes;

    open spec fn view(&self) -> UpcastAxes {
        UpcastAxes { a: self.a@, b: self.b@, c: self.c@ }
    }
}

/// An expanded product: the shapes of its operands, of the product of those,
/// and of the result.
#[derive(Debug)]
pub struct WmmaShapes {
    pub a: Vec<usize>,
    pub b: Vec<usize>,
    pub inner: Vec<usize>,
    pub output: Vec<usize>,
}

/// The shapes of an expanded product.
pub struct ProductShapes {
    pub a: Seq<usize>,
    pub b: Seq<usize>,
    pub inner: Seq<usize>,
    pub output: Seq<usize>,
}

impl View for WmmaShapes {
    type V = ProductShapes;

    open spec fn view(&self) -> ProductShapes {
        ProductShapes { a: self.a@, b: self.b@, inner: self.inner@, output: self.output@ }
    }
}

/// The shapes of an expanded product: each operand is contracted along its own
/// axes, and the result is unrolled along its own. Nothing where one of the axes
/// has no coordinate, or another extent than its operand.
pub open spec fn expanded_product(
    map: Seq<AxisId>,
    a: Seq<usize>,
    b: Seq<usize>,
    lanes: usize,
    axes: UpcastAxes,
) -> Option<ProductShapes> {
    match (contracted(map, a, axes.a), contracted(map, b, axes.b)) {
        (Some(left), Some(right)) => match product_shape(left, right, lanes) {
            Some(inner) => match unrolled(map, inner, axes.c) {
                Some(output) => Some(ProductShapes { a: left, b: right, inner, output }),
                None => None,
            },
            None => None,
        },
        _ => None,
    }
}

/// The shapes of an expanded product; see `expanded_product`.
pub fn expand_wmma(
    map: &Vec<AxisId>,
    a: &Vec<usize>,
    b: &Vec<usize>,
    lanes: usize,
    axes: &WmmaUpcastAxes,
) -> (shapes: Option<WmmaShapes>)
    ensures
        match shapes {
            Some(found) => expanded_product(map@, a@, b@, lanes, axes@) == Some(found@),
            None => expanded_product(map@, a@, b@, lanes, axes@) is None,
        },
{
    match (contract_axis(map, a, &axes.a), contract_axis(map, b, &axes.b)) {
        (Some(left), Some(right)) => match wmma_shape(&left, &right, lanes) {
            Some(inner) => match unroll_axis(map, &inner, &axes.c) {
                Some(output) => Some(WmmaShapes { a: left, b: right, inner, output }),
                None => None,
            },
            None => None,
        },
        _ => None,
    }
}

} // verus!
