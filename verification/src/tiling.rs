//! How the tiles of a tensor core are spread over a kernel's axes.

use vstd::prelude::*;

use crate::opts::{opt, Opt, OptOps};

verus! {

/// The first of the listed factors that divides an extent.
pub open spec fn first_dividing(extent: usize, ladder: Seq<usize>) -> Option<usize>
    decreases ladder.len(),
{
    if ladder.len() == 0 {
        None
    } else if extent as int % ladder[0] as int == 0 {
        Some(ladder[0])
    } else {
        first_dividing(extent, ladder.skip(1))
    }
}

/// The factors by which an axis is upcast, the preferred one first.
pub open spec fn upcast_ladder() -> Seq<usize> {
    seq![5usize, 4, 3, 2]
}

/// The factors by which an axis is made local, the preferred one first.
pub open spec fn local_ladder() -> Seq<usize> {
    seq![4usize, 2]
}

/// The factor by which a number of tiles is split, if there is more than one.
pub open spec fn split_by(tiles: usize, ladder: Seq<usize>) -> Option<usize> {
    if tiles > 1 {
        first_dividing(tiles, ladder)
    } else {
        None
    }
}

/// What is left of a number of tiles behind a split.
pub open spec fn left_of(tiles: usize, factor: Option<usize>) -> usize {
    match factor {
        Some(f) => (tiles as int / f as int) as usize,
        None => tiles,
    }
}

/// The split of an axis as an optimization.
pub open spec fn step(op: OptOps, axis: usize, factor: Option<usize>) -> Seq<Opt> {
    match factor {
        Some(f) => seq![Opt { op, axis: Some(axis), arg: Some(f) }],
        None => Seq::empty(),
    }
}

/// The axis of the columns: an axis that is down to one tile is dropped, so the
/// columns move up once the rows are used up.
pub open spec fn column_axis(rows_left: usize) -> usize {
    if rows_left > 1 {
        1
    } else {
        0
    }
}

/// The plan for a number of tiles in rows and in columns: rows are upcast, then
/// columns, and what is left of the columns is made local where there is local
/// storage.
pub open spec fn fixed_plan(rows: usize, columns: usize, has_local: bool) -> Seq<Opt> {
    let by_row = split_by(rows, upcast_ladder());
    let axis = column_axis(left_of(rows, by_row));
    let by_column = split_by(columns, upcast_ladder());
    let left = left_of(columns, by_column);
    let by_lane = if has_local {
        split_by(left, local_ladder())
    } else {
        None
    };
    step(OptOps::UPCAST, 0, by_row) + step(OptOps::UPCAST, axis, by_column) + step(
        OptOps::LOCAL,
        axis,
        by_lane,
    )
}

/// A factor that is found is one of the ladder and divides.
pub proof fn lemma_first_divides(extent: usize, ladder: Seq<usize>)
    ensures
        first_dividing(extent, ladder) matches Some(f) ==> ladder.contains(f) && extent as int
            % f as int == 0,
        first_dividing(extent, ladder) is None ==> forall|i: int|
            0 <= i < ladder.len() ==> extent as int % (#[trigger] ladder[i]) as int != 0,
    decreases ladder.len(),
{
    if ladder.len() > 0 && extent as int % ladder[0] as int != 0 {
        let rest = ladder.skip(1);
        lemma_first_divides(extent, rest);
        if let Some(f) = first_dividing(extent, rest) {
            let i = choose|i: int| 0 <= i < rest.len() && rest[i] == f;
            assert(ladder[i + 1] == f);
        } else {
            assert forall|i: int| 0 <= i < ladder.len() implies extent as int % (
            #[trigger] ladder[i]) as int != 0 by {
                if i > 0 {
                    assert(rest[i - 1] == ladder[i]);
                }
            }
        }
    }
}

/// Each step of a plan splits the tiles of its axis evenly: rows by two to
/// five, columns by two to five, and what is left of them by two or four.
pub proof fn lemma_plan_splits_evenly(rows: usize, columns: usize)
    ensures
        ({
            let by_row = split_by(rows, upcast_ladder());
            let by_column = split_by(columns, upcast_ladder());
            let left = left_of(columns, by_column);
            let by_lane = split_by(left, local_ladder());
            &&& by_row matches Some(f) ==> 2 <= f <= 5 && left_of(rows, by_row) * f == rows
            &&& by_column matches Some(f) ==> 2 <= f <= 5 && left * f == columns
            &&& by_lane matches Some(f) ==> (f == 2 || f == 4) && left_of(left, by_lane) * f == left
        }),
{
    let by_row = split_by(rows, upcast_ladder());
    let by_column = split_by(columns, upcast_ladder());
    let left = left_of(columns, by_column);
    let by_lane = split_by(left, local_ladder());
    lemma_first_divides(rows, upcast_ladder());
    lemma_first_divides(columns, upcast_ladder());
    lemma_first_divides(left, local_ladder());
    if let Some(f) = by_row {
        lemma_quotient(rows as int, f as int);
    }
    if let Some(f) = by_column {
        lemma_quotient(columns as int, f as int);
    }
    if let Some(f) = by_lane {
        lemma_quotient(left as int, f as int);
    }
}

proof fn lemma_quotient(n: int, f: int)
    requires
        n >= 0,
        f >= 2,
        n % f == 0,
    ensures
        (n / f) * f == n,
        0 <= n / f <= n,
{
    vstd::arithmetic::div_mod::lemma_fundamental_div_mod(n, f);
    assert(0 <= n / f <= n) by (nonlinear_arith)
        requires
            n >= 0,
            f >= 2,
    ;
    assert(f * (n / f) == (n / f) * f) by (nonlinear_arith);
}

fn first(extent: usize, ladder: &[usize]) -> (factor: Option<usize>)
    requires
        forall|i: int| 0 <= i < ladder@.len() ==> (#[trigger] ladder@[i]) > 0,
    ensures
        factor == first_dividing(extent, ladder@),
{
    let mut at: usize = 0;
    assert(ladder@.skip(0) =~= ladder@);
    while at < ladder.len()
        invariant
            forall|i: int| 0 <= i < ladder@.len() ==> (#[trigger] ladder@[i]) > 0,
            at <= ladder@.len(),
            first_dividing(extent, ladder@) == first_dividing(extent, ladder@.skip(at as int)),
        decreases ladder@.len() - at,
    {
        assert(ladder@.skip(at as int)[0] == ladder@[at as int]);
        assert(ladder@.skip(at as int).skip(1) =~= ladder@.skip(at + 1));
        if extent % ladder[at] == 0 {
            return Some(ladder[at]);
        }
        at += 1;
    }
    None
}

/// The plan for a product of `m` by `n` with tensor cores of these dimensions:
/// rows and then columns are upcast by the first of 5, 4, 3 and 2 that divides
/// their tiles, and the columns made local by the first of 4 and 2.
pub fn fixed_step_reference(m: i64, n: i64, dims: (usize, usize), has_local: bool) -> (plan: Vec<
    Opt,
>)
    requires
        0 <= m <= usize::MAX,
        0 <= n <= usize::MAX,
        dims.0 > 0,
        dims.1 > 0,
    ensures
        plan@ == fixed_plan(
            (m as int / dims.1 as int) as usize,
            (n as int / dims.0 as int) as usize,
            has_local,
        ),
{
    let upcasts: [usize; 4] = [5, 4, 3, 2];
    let locals: [usize; 2] = [4, 2];
    assert(upcasts@ =~= upcast_ladder());
    assert(locals@ =~= local_ladder());
    let rows: usize = m as usize / dims.1;
    let columns: usize = n as usize / dims.0;
    let mut m_tiles: usize = rows;
    let mut n_tiles: usize = columns;
    let mut plan: Vec<Opt> = Vec::new();
    proof {
        lemma_plan_splits_evenly(rows, columns);
        lemma_first_divides(rows, upcast_ladder());
        lemma_first_divides(columns, upcast_ladder());
    }
    if m_tiles > 1 {
        if let Some(factor) = first(m_tiles, &upcasts) {
            plan.push(opt(OptOps::UPCAST, 0, factor));
            m_tiles = m_tiles / factor;
        }
    }
    assert(plan@ =~= step(OptOps::UPCAST, 0, split_by(rows, upcast_ladder())));
    assert(m_tiles == left_of(rows, split_by(rows, upcast_ladder())));
    let n_axis: usize = if m_tiles > 1 {
        1
    } else {
        0
    };
    let ghost had = plan@;
    if n_tiles > 1 {
        if let Some(factor) = first(n_tiles, &upcasts) {
            plan.push(opt(OptOps::UPCAST, n_axis, factor));
            n_tiles = n_tiles / factor;
        }
    }
    let ghost more = step(OptOps::UPCAST, n_axis, split_by(columns, upcast_ladder()));
    assert(plan@ =~= had + more);
    assert(n_tiles == left_of(columns, split_by(columns, upcast_ladder())));
    if has_local && n_tiles > 1 {
        if let Some(factor) = first(n_tiles, &locals) {
            plan.push(opt(OptOps::LOCAL, n_axis, factor));
        }
    }
    assert(plan@ =~= had + more + step(
        OptOps::LOCAL,
        n_axis,
        if has_local {
            split_by(n_tiles, local_ladder())
        } else {
            None
        },
    ));
    plan
}

/// The plan without local memory has no local step, and it is the plan with it
/// less its last step, where that is a local one.
pub proof fn lemma_plan_without_locals(rows: usize, columns: usize)
    ensures
        ({
            let without = fixed_plan(rows, columns, false);
            let with = fixed_plan(rows, columns, true);
            &&& forall|i: int| 0 <= i < without.len() ==> (#[trigger] without[i]).op != OptOps::LOCAL
            &&& with == without || (with.len() == without.len() + 1 && with.drop_last() == without
                && with.last().op == OptOps::LOCAL)
        }),
{
    let without = fixed_plan(rows, columns, false);
    let with = fixed_plan(rows, columns, true);
    if with.len() == without.len() {
        assert(with =~= without);
    } else {
        assert(with.drop_last() =~= without);
    }
}

} // verus!
