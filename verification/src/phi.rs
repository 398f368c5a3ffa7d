//! Dominance of loop values in a linearized program: a value that depends on a
//! loop's counter may not be used once the loop has ended.

use std::collections::{HashMap, HashSet};

use vstd::prelude::*;

use crate::graph::{Graph, NodeView, Op};
use crate::scope::{ended, is_range, lemma_ended_below, loops_below, TreeScopeViolation};
use crate::text::{decimal, push_decimal, push_text};

verus! {

/// The loops that each instruction so far depends on, and the loops that are open.
#[verifier::ext_equal]
pub struct PhiState {
    pub deps: Map<usize, Set<usize>>,
    pub open: Set<usize>,
}

/// The recorded dependencies of an instruction; none if it was not seen.
pub open spec fn known(deps: Map<usize, Set<usize>>, id: usize) -> Set<usize> {
    if deps.contains_key(id) {
        deps[id]
    } else {
        Set::empty()
    }
}

/// Whether one of the listed instructions depends on `r`.
pub open spec fn any_known(deps: Map<usize, Set<usize>>, ids: Seq<usize>, r: usize) -> bool {
    exists|k: int| 0 <= k < ids.len() && known(deps, #[trigger] ids[k]).contains(r)
}

/// The dependencies that a node has from its sources.
pub open spec fn inherited(deps: Map<usize, Set<usize>>, srcs: Seq<usize>) -> Set<usize> {
    Set::new(|r: usize| any_known(deps, srcs, r))
}

/// Whether ending the listed nodes drops the dependency on `r`: a range drops
/// itself, any other node drops what it depends on.
pub open spec fn dropped(
    dag: Seq<NodeView>,
    deps: Map<usize, Set<usize>>,
    ends: Seq<usize>,
    r: usize,
) -> bool {
    exists|j: int|
        #![trigger ends[j]]
        0 <= j < ends.len() && if is_range(dag[ends[j] as int].op) {
            ends[j] == r
        } else {
            known(deps, ends[j]).contains(r)
        }
}

/// The loops that an instruction depends on. A range depends on itself; an
/// `After` sheds the loops that its dependencies end.
pub open spec fn carried(dag: Seq<NodeView>, deps: Map<usize, Set<usize>>, id: usize) -> Set<
    usize,
> {
    let from = inherited(deps, dag[id as int].srcs);
    if is_range(dag[id as int].op) {
        from.insert(id)
    } else if dag[id as int].op is After {
        Set::new(|r: usize| from.contains(r) && !dropped(dag, deps, ended(dag, id), r))
    } else {
        from
    }
}

/// The state behind one more instruction. A range opens its loop and an `End`
/// closes the loops that it names.
pub open spec fn advance(dag: Seq<NodeView>, state: PhiState, id: usize) -> PhiState {
    PhiState {
        deps: state.deps.insert(id, carried(dag, state.deps, id)),
        open: if is_range(dag[id as int].op) {
            state.open.insert(id)
        } else if dag[id as int].op is End {
            Set::new(|r: usize| state.open.contains(r) && !ends_range(dag, id, r))
        } else {
            state.open
        },
    }
}

/// The state before position `n` of a program.
pub open spec fn phi_state(dag: Seq<NodeView>, linear: Seq<usize>, n: nat) -> PhiState
    decreases n,
{
    if n == 0 {
        PhiState { deps: Map::empty(), open: Set::empty() }
    } else {
        advance(dag, phi_state(dag, linear, (n - 1) as nat), linear[n - 1])
    }
}

/// Whether the instruction at position `i` depends on the closed loop `r`.
pub open spec fn uses_closed(dag: Seq<NodeView>, linear: Seq<usize>, i: int, r: usize) -> bool {
    let state = phi_state(dag, linear, i as nat);
    &&& !is_range(dag[linear[i] as int].op)
    &&& carried(dag, state.deps, linear[i]).contains(r)
    &&& !state.open.contains(r)
}

/// A program in which no instruction depends on a closed loop.
pub open spec fn phi_dominates(dag: Seq<NodeView>, linear: Seq<usize>) -> bool {
    forall|i: int, r: usize| 0 <= i < linear.len() ==> !#[trigger] uses_closed(dag, linear, i, r)
}

/// Whether a node is an `End` that names `r`.
pub open spec fn ends_range(dag: Seq<NodeView>, id: usize, r: usize) -> bool {
    dag[id as int].op is End && dag[id as int].srcs.skip(1).contains(r)
}

/// Whether `r` stands at position `i` and no `End` between there and `n` names it.
pub open spec fn unclosed(
    dag: Seq<NodeView>,
    linear: Seq<usize>,
    i: int,
    n: int,
    r: usize,
) -> bool {
    &&& 0 <= i < n
    &&& linear[i] == r
    &&& forall|j: int| i < j < n ==> !ends_range(dag, #[trigger] linear[j], r)
}

/// A loop is open before position `n` if and only if its range stands before
/// `n` and no `End` between the two names it.
pub proof fn lemma_open_between_range_and_end(
    dag: Seq<NodeView>,
    linear: Seq<usize>,
    n: nat,
    r: usize,
)
    requires
        n <= linear.len(),
    ensures
        phi_state(dag, linear, n).open.contains(r) <==> is_range(dag[r as int].op) && exists|i: int|
            #[trigger] unclosed(dag, linear, i, n as int, r),
    decreases n,
{
    if n > 0 {
        let m = (n - 1) as nat;
        lemma_open_between_range_and_end(dag, linear, m, r);
        let last = linear[n - 1];
        let was = phi_state(dag, linear, m).open;
        let now = phi_state(dag, linear, n).open;
        assert(now.contains(r) == if is_range(dag[last as int].op) && last == r {
            true
        } else {
            was.contains(r) && !ends_range(dag, last, r)
        });
        if is_range(dag[last as int].op) && last == r {
            assert(unclosed(dag, linear, m as int, n as int, r));
        } else {
            if now.contains(r) {
                let i = choose|i: int| #[trigger] unclosed(dag, linear, i, m as int, r);
                assert(unclosed(dag, linear, i, n as int, r));
            }
            if is_range(dag[r as int].op) && exists|i: int| #[trigger]
                unclosed(dag, linear, i, n as int, r) {
                let i = choose|i: int| #[trigger] unclosed(dag, linear, i, n as int, r);
                assert(i < m);
                assert(unclosed(dag, linear, i, m as int, r));
                assert(!ends_range(dag, linear[m as int], r));
            }
        }
    }
}

/// A program whose loops dominate their uses still does so cut off anywhere.
pub proof fn lemma_phi_prefix(dag: Seq<NodeView>, linear: Seq<usize>, n: int)
    requires
        0 <= n <= linear.len(),
        phi_dominates(dag, linear),
    ensures
        phi_dominates(dag, linear.take(n)),
{
    let cut = linear.take(n);
    assert forall|i: int, r: usize| 0 <= i < cut.len() implies !#[trigger] uses_closed(
        dag,
        cut,
        i,
        r,
    ) by {
        lemma_phi_state_prefix(dag, linear, n, i as nat);
        assert(!uses_closed(dag, linear, i, r));
    }
}

proof fn lemma_phi_state_prefix(dag: Seq<NodeView>, linear: Seq<usize>, n: int, i: nat)
    requires
        0 <= n <= linear.len(),
        i <= n,
    ensures
        phi_state(dag, linear.take(n), i) == phi_state(dag, linear, i),
    decreases i,
{
    if i > 0 {
        lemma_phi_state_prefix(dag, linear, n, (i - 1) as nat);
    }
}

/// An operation's name.
pub open spec fn name_of(op: Op) -> Seq<char> {
    match op {
        Op::Noop => "Noop"@,
        Op::Sink => "Sink"@,
        Op::Group => "Group"@,
        Op::Const(_) => "Const"@,
        Op::Param { .. } => "Param"@,
        Op::Variable { .. } => "Variable"@,
        Op::Buffer { .. } => "Buffer"@,
        Op::Range { .. } => "Range"@,
        Op::End => "End"@,
        Op::After => "After"@,
        Op::Cast => "Cast"@,
        Op::BitCast => "BitCast"@,
        Op::Precast => "Precast"@,
        Op::Unary(_) => "Unary"@,
        Op::Binary(_) => "Binary"@,
        Op::Ternary(_) => "Ternary"@,
        Op::Index => "Index"@,
        Op::Load => "Load"@,
        Op::Store => "Store"@,
        Op::Reduce(_) => "Reduce"@,
        Op::Stage { .. } => "Stage"@,
        Op::Stack => "Stack"@,
        Op::Reshape => "Reshape"@,
        Op::Expand => "Expand"@,
        Op::Call => "Call"@,
        Op::If => "If"@,
        Op::EndIf => "EndIf"@,
        Op::Copy => "Copy"@,
        Op::Contiguous => "Contiguous"@,
        Op::MStack => "MStack"@,
        Op::MSelect(_) => "MSelect"@,
        Op::Wmma(_) => "Wmma"@,
        Op::Multi(_) => "Multi"@,
        Op::Permute => "Permute"@,
        Op::Flip => "Flip"@,
        Op::Pad => "Pad"@,
        Op::Shrink => "Shrink"@,
        Op::Detach => "Detach"@,
        Op::ContiguousBackward => "ContiguousBackward"@,
        Op::AxisReduce { .. } => "Reduce"@,
        Op::AllReduce(_) => "AllReduce"@,
        Op::Collective(_) => "CustomFunction"@,
        Op::Function { .. } => "Function"@,
        Op::Tuple => "Tuple"@,
        Op::GetTuple(_) => "GetTuple"@,
        Op::Bind => "Bind"@,
        Op::UpcastAxis(_) => "UpcastAxis"@,
        Op::UpcastAxes => "UpcastAxes"@,
        Op::CustomI { .. } => "CustomI"@,
        Op::Ins { .. } => "Ins"@,
    }
}

/// An operation's name.
pub fn op_name(op: Op) -> (name: &'static str)
    ensures
        name@ == name_of(op),
{
    match op {
        Op::Noop => "Noop",
        Op::Sink => "Sink",
        Op::Group => "Group",
        Op::Const(_) => "Const",
        Op::Param { .. } => "Param",
        Op::Variable { .. } => "Variable",
        Op::Buffer { .. } => "Buffer",
        Op::Range { .. } => "Range",
        Op::End => "End",
        Op::After => "After",
        Op::Cast => "Cast",
        Op::BitCast => "BitCast",
        Op::Precast => "Precast",
        Op::Unary(_) => "Unary",
        Op::Binary(_) => "Binary",
        Op::Ternary(_) => "Ternary",
        Op::Index => "Index",
        Op::Load => "Load",
        Op::Store => "Store",
        Op::Reduce(_) => "Reduce",
        Op::Stage { .. } => "Stage",
        Op::Stack => "Stack",
        Op::Reshape => "Reshape",
        Op::Expand => "Expand",
        Op::Call => "Call",
        Op::If => "If",
        Op::EndIf => "EndIf",
        Op::Copy => "Copy",
        Op::Contiguous => "Contiguous",
        Op::MStack => "MStack",
        Op::MSelect(_) => "MSelect",
        Op::Wmma(_) => "Wmma",
        Op::Multi(_) => "Multi",
        Op::Permute => "Permute",
        Op::Flip => "Flip",
        Op::Pad => "Pad",
        Op::Shrink => "Shrink",
        Op::Detach => "Detach",
        Op::ContiguousBackward => "ContiguousBackward",
        Op::AxisReduce { .. } => "Reduce",
        Op::AllReduce(_) => "AllReduce",
        Op::Collective(_) => "CustomFunction",
        Op::Function { .. } => "Function",
        Op::Tuple => "Tuple",
        Op::GetTuple(_) => "GetTuple",
        Op::Bind => "Bind",
        Op::UpcastAxis(_) => "UpcastAxis",
        Op::UpcastAxes => "UpcastAxes",
        Op::CustomI { .. } => "CustomI",
        Op::Ins { .. } => "Ins",
    }
}

/// `{label} at [{idx}] depends on closed range {closed}`
pub open spec fn closed_message(label: Seq<char>, idx: usize, closed: usize) -> Seq<char> {
    label + " at ["@ + decimal(idx as nat) + "] depends on closed range "@ + decimal(closed as nat)
}

/// `phi-dominance violation at [{idx}]: {op} depends on closed range {closed}`
pub open spec fn violation_message(op: Op, idx: usize, closed: usize) -> Seq<char> {
    "phi-dominance violation at ["@ + decimal(idx as nat) + "]: "@ + name_of(op)
        + " depends on closed range "@ + decimal(closed as nat)
}

/// What is reported of the instruction at position `idx`.
pub open spec fn report(op: Op, idx: usize, closed: usize) -> Seq<char> {
    match op {
        Op::End => closed_message("END"@, idx, closed),
        Op::After => closed_message("AFTER"@, idx, closed),
        _ => violation_message(op, idx, closed),
    }
}

/// One dependency whose loop is closed, if there is one.
fn find_closed(deps: &HashSet<usize>, open: &HashSet<usize>) -> (found: Option<usize>)
    ensures
        match found {
            Some(closed) => deps@.contains(closed) && !open@.contains(closed),
            None => deps@.subset_of(open@),
        },
{
    let items = deps.iter();
    for range in it: items
        invariant
            it.seq().unref().to_set() == deps@,
            forall|i: int| 0 <= i < it.index() ==> open@.contains(*#[trigger] it.seq()[i]),
    {
        if !open.contains(range) {
            assert(it.seq().unref()[it.index() as int] == *range);
            assert(it.seq().unref().to_set().contains(*range));
            return Some(*range);
        }
    }
    None
}

/// Adds the members of one set to another.
fn add_all(set: &mut HashSet<usize>, more: &HashSet<usize>)
    ensures
        final(set)@ == old(set)@.union(more@),
{
    let items = more.iter();
    let ghost start = set@;
    for range in it: items
        invariant
            it.seq().unref().to_set() == more@,
            start.subset_of(set@),
            set@.subset_of(start.union(more@)),
            forall|i: int| 0 <= i < it.index() ==> set@.contains(*#[trigger] it.seq()[i]),
    {
        assert(it.seq().unref()[it.index() as int] == *range);
        assert(it.seq().unref().to_set().contains(*range));
        set.insert(*range);
    }
    assert(more@.subset_of(set@));
    assert(set@ =~= start.union(more@));
}

/// Takes the members of one set out of another.
fn remove_all(set: &mut HashSet<usize>, less: &HashSet<usize>)
    ensures
        final(set)@ == old(set)@.difference(less@),
{
    let items = less.iter();
    let ghost start = set@;
    for range in it: items
        invariant
            it.seq().unref().to_set() == less@,
            set@.subset_of(start),
            start.difference(less@).subset_of(set@),
            forall|i: int| 0 <= i < it.index() ==> !set@.contains(*#[trigger] it.seq()[i]),
    {
        assert(it.seq().unref()[it.index() as int] == *range);
        assert(it.seq().unref().to_set().contains(*range));
        set.remove(range);
    }
    assert(less@.disjoint(set@));
    assert(set@ =~= start.difference(less@));
}

/// The sets that a table of sets holds.
pub open spec fn table(deps: Map<usize, HashSet<usize>>) -> Map<usize, Set<usize>> {
    deps.map_values(|set: HashSet<usize>| set@)
}

/// The dependencies that a node has from its sources.
pub fn inherited_deps(deps: &HashMap<usize, HashSet<usize>>, graph: &Graph, id: usize) -> (set:
    HashSet<usize>)
    requires
        graph.wf(),
        id < graph@.len(),
    ensures
        set@ == inherited(table(deps@), graph@[id as int].srcs),
{
    let ghost srcs = graph@[id as int].srcs;
    let ghost known_deps = table(deps@);
    let mut set: HashSet<usize> = HashSet::new();
    let count: usize = graph.source_count(id);
    let mut k: usize = 0;
    assert(set@ =~= inherited(known_deps, srcs.take(0)));
    while k < count
        invariant
            graph.wf(),
            id < graph@.len(),
            srcs == graph@[id as int].srcs,
            count == srcs.len(),
            known_deps == table(deps@),
            k <= count,
            set@ == inherited(known_deps, srcs.take(k as int)),
        decreases count - k,
    {
        let src: usize = graph.source(id, k);
        if let Some(more) = deps.get(&src) {
            add_all(&mut set, more);
        }
        proof {
            lemma_inherited_step(known_deps, srcs, k as int);
        }
        k += 1;
        assert(set@ =~= inherited(known_deps, srcs.take(k as int)));
    }
    assert(srcs.take(count as int) =~= srcs);
    set
}

proof fn lemma_inherited_step(deps: Map<usize, Set<usize>>, srcs: Seq<usize>, k: int)
    requires
        0 <= k < srcs.len(),
    ensures
        inherited(deps, srcs.take(k + 1)) == inherited(deps, srcs.take(k)).union(
            known(deps, srcs[k]),
        ),
{
    let had = srcs.take(k);
    let now = srcs.take(k + 1);
    assert forall|r: usize| #[trigger]
        inherited(deps, now).contains(r) <==> inherited(deps, had).union(
            known(deps, srcs[k]),
        ).contains(r) by {
        if any_known(deps, now, r) {
            let j = choose|j: int| 0 <= j < now.len() && known(deps, #[trigger] now[j]).contains(r);
            if j < k {
                assert(had[j] == now[j]);
            }
        }
        if any_known(deps, had, r) {
            let j = choose|j: int| 0 <= j < had.len() && known(deps, #[trigger] had[j]).contains(r);
            assert(now[j] == had[j]);
        }
        if known(deps, srcs[k]).contains(r) {
            assert(now[k] == srcs[k]);
        }
    }
    assert(inherited(deps, now) =~= inherited(deps, had).union(known(deps, srcs[k])));
}

/// Succeeds if every dependency's loop is open, and otherwise names one that
/// is closed. Which one, when there are several, is left open.
pub fn require_open(
    deps: &HashSet<usize>,
    open: &HashSet<usize>,
    idx: usize,
    label: &str,
) -> (result: Result<(), String>)
    ensures
        result is Ok <==> deps@.subset_of(open@),
        result matches Err(message) ==> exists|closed: usize|
            deps@.contains(closed) && !open@.contains(closed) && message@
                == #[trigger] closed_message(label@, idx, closed),
{
    match find_closed(deps, open) {
        Some(closed) => {
            let mut message = String::new();
            push_text(&mut message, label);
            push_text(&mut message, " at [");
            push_decimal(&mut message, idx as u64);
            push_text(&mut message, "] depends on closed range ");
            push_decimal(&mut message, closed as u64);
            assert(message@ =~= closed_message(label@, idx, closed));
            Err(message)
        },
        None => Ok(()),
    }
}

/// `report` of an instruction that is neither an `End` nor an `After`.
fn violation(op: Op, idx: usize, closed: usize) -> (message: String)
    ensures
        message@ == violation_message(op, idx, closed),
{
    let mut message = String::new();
    push_text(&mut message, "phi-dominance violation at [");
    push_decimal(&mut message, idx as u64);
    push_text(&mut message, "]: ");
    push_text(&mut message, op_name(op));
    push_text(&mut message, " depends on closed range ");
    push_decimal(&mut message, closed as u64);
    assert(message@ =~= violation_message(op, idx, closed));
    message
}

/// Numbers in decimal, with `, ` between them.
pub open spec fn listed(list: Seq<usize>, n: nat) -> Seq<char>
    decreases n,
{
    if n == 0 {
        Seq::empty()
    } else if n == 1 {
        decimal(list[0] as nat)
    } else {
        listed(list, (n - 1) as nat) + ", "@ + decimal(list[n - 1] as nat)
    }
}

/// `{op} (scope={{..}})`, for a node of a graph.
pub open spec fn scoped_name(dag: Seq<NodeView>, id: usize) -> Seq<char> {
    let list = loops_below(dag, id, dag.len());
    name_of(dag[id as int].op) + " (scope={"@ + listed(list, list.len()) + "})"@
}

/// `tree-scope violation: {producer} -> {consumer} does not end range {range}`
pub open spec fn tree_message(dag: Seq<NodeView>, found: TreeScopeViolation) -> Seq<char> {
    "tree-scope violation: "@ + scoped_name(dag, found.producer) + " -> "@ + scoped_name(
        dag,
        found.consumer,
    ) + " does not end range "@ + decimal(found.range as nat)
}

/// Appends the name of a node's operation, and the loops that it runs in.
fn push_scoped_name(message: &mut String, graph: &Graph, id: usize)
    requires
        graph.wf(),
        id < graph@.len(),
    ensures
        final(message)@ == old(message)@ + scoped_name(graph@, id),
{
    let ghost before = message@;
    let list = graph.scope_list(id);
    push_text(message, op_name(graph.op(id)));
    push_text(message, " (scope={");
    let ghost head = name_of(graph@[id as int].op) + " (scope={"@;
    assert(message@ =~= before + head);
    let mut at: usize = 0;
    while at < list.len()
        invariant
            at <= list@.len(),
            message@ == before + head + listed(list@, at as nat),
        decreases list@.len() - at,
    {
        if at > 0 {
            push_text(message, ", ");
        }
        push_decimal(message, list[at] as u64);
        assert(message@ =~= before + head + listed(list@, (at + 1) as nat));
        at += 1;
    }
    push_text(message, "})");
    assert(message@ =~= before + scoped_name(graph@, id));
}

/// What is reported of a value that leaves a loop which its reader does not
/// end: both nodes with the loops that they run in, and the loop.
pub fn tree_scope_message(graph: &Graph, found: TreeScopeViolation) -> (message: String)
    requires
        graph.wf(),
        found.producer < graph@.len(),
        found.consumer < graph@.len(),
    ensures
        message@ == tree_message(graph@, found),
{
    let mut message = String::new();
    push_text(&mut message, "tree-scope violation: ");
    push_scoped_name(&mut message, graph, found.producer);
    push_text(&mut message, " -> ");
    push_scoped_name(&mut message, graph, found.consumer);
    push_text(&mut message, " does not end range ");
    push_decimal(&mut message, found.range as u64);
    assert(message@ =~= tree_message(graph@, found));
    message
}

/// Whether `i` is the first position that depends on a closed loop, and
/// `closed` is such a loop.
pub open spec fn first_use(
    dag: Seq<NodeView>,
    linear: Seq<usize>,
    i: int,
    closed: usize,
) -> bool {
    &&& 0 <= i < linear.len()
    &&& uses_closed(dag, linear, i, closed)
    &&& forall|j: int, r: usize| 0 <= j < i ==> !#[trigger] uses_closed(dag, linear, j, r)
}

/// The dependencies of a set that survive the listed ends.
spec fn shed(
    dag: Seq<NodeView>,
    deps: Map<usize, Set<usize>>,
    from: Set<usize>,
    ends: Seq<usize>,
) -> Set<usize> {
    Set::new(|r: usize| from.contains(r) && !dropped(dag, deps, ends, r))
}

proof fn lemma_shed_step(
    dag: Seq<NodeView>,
    deps: Map<usize, Set<usize>>,
    from: Set<usize>,
    ends: Seq<usize>,
    j: int,
)
    requires
        0 <= j < ends.len(),
    ensures
        forall|r: usize| #[trigger]
            shed(dag, deps, from, ends.take(j + 1)).contains(r) <==> shed(
                dag,
                deps,
                from,
                ends.take(j),
            ).contains(r) && !(if is_range(dag[ends[j] as int].op) {
                ends[j] == r
            } else {
                known(deps, ends[j]).contains(r)
            }),
{
    let had = ends.take(j);
    let now = ends.take(j + 1);
    assert forall|r: usize| #[trigger]
        shed(dag, deps, from, now).contains(r) <==> shed(dag, deps, from, had).contains(r) && !(
        if is_range(dag[ends[j] as int].op) {
            ends[j] == r
        } else {
            known(deps, ends[j]).contains(r)
        }) by {
        if dropped(dag, deps, had, r) {
            let m = choose|m: int|
                #![trigger had[m]]
                0 <= m < had.len() && if is_range(dag[had[m] as int].op) {
                    had[m] == r
                } else {
                    known(deps, had[m]).contains(r)
                };
            assert(now[m] == had[m]);
        }
        if dropped(dag, deps, now, r) {
            let m = choose|m: int|
                #![trigger now[m]]
                0 <= m < now.len() && if is_range(dag[now[m] as int].op) {
                    now[m] == r
                } else {
                    known(deps, now[m]).contains(r)
                };
            if m < j {
                assert(had[m] == now[m]);
            }
        }
        assert(now[j] == ends[j]);
    }
}

/// Takes the loops out of a set that the dependencies of an `After` end.
fn shed_ended(
    set: &mut HashSet<usize>,
    deps: &HashMap<usize, HashSet<usize>>,
    graph: &Graph,
    id: usize,
)
    requires
        graph.wf(),
        id < graph@.len(),
    ensures
        final(set)@ == shed(graph@, table(deps@), old(set)@, ended(graph@, id)),
{
    let ghost dag = graph@;
    let ghost from = set@;
    let ghost known_deps = table(deps@);
    let ends = graph.ended_ranges(id);
    proof {
        lemma_ended_below(dag, id);
    }
    let mut j: usize = 0;
    assert(set@ =~= shed(dag, known_deps, from, ends@.take(0)));
    while j < ends.len()
        invariant
            graph.wf(),
            dag == graph@,
            id < dag.len(),
            known_deps == table(deps@),
            ends@ == ended(dag, id),
            forall|m: int| 0 <= m < ended(dag, id).len() ==> (#[trigger] ended(dag, id)[m]) < id,
            j <= ends@.len(),
            set@ == shed(dag, known_deps, from, ends@.take(j as int)),
        decreases ends@.len() - j,
    {
        let end: usize = ends[j];
        assert(ended(dag, id)[j as int] == end);
        match graph.op(end) {
            Op::Range { .. } => {
                set.remove(&end);
            },
            _ => {
                if let Some(less) = deps.get(&end) {
                    remove_all(set, less);
                }
            },
        }
        proof {
            lemma_shed_step(dag, known_deps, from, ends@, j as int);
        }
        j += 1;
        assert(set@ =~= shed(dag, known_deps, from, ends@.take(j as int)));
    }
    assert(ends@.take(ends@.len() as int) =~= ends@);
}

/// Takes the ranges that an `End` names out of the open ones.
fn close_ranges(open: &mut HashSet<usize>, graph: &Graph, id: usize)
    requires
        graph.wf(),
        id < graph@.len(),
        graph@[id as int].op is End,
    ensures
        final(open)@ == Set::new(|r: usize| old(open)@.contains(r) && !ends_range(graph@, id, r)),
{
    let ghost srcs = graph@[id as int].srcs;
    let ghost start = open@;
    assert(crate::graph::arity_ok(graph@[id as int].op, srcs.len()));
    let count: usize = graph.source_count(id);
    let mut k: usize = 1;
    while k < count
        invariant
            graph.wf(),
            id < graph@.len(),
            srcs == graph@[id as int].srcs,
            count == srcs.len(),
            1 <= k <= count,
            forall|r: usize| #[trigger]
                open@.contains(r) <==> start.contains(r) && forall|m: int|
                    1 <= m < k ==> #[trigger] srcs[m] != r,
        decreases count - k,
    {
        let range: usize = graph.source(id, k);
        open.remove(&range);
        k += 1;
    }
    proof {
        let now = Set::new(|r: usize| start.contains(r) && !ends_range(graph@, id, r));
        assert forall|r: usize| #[trigger] open@.contains(r) <==> now.contains(r) by {
            let named = srcs.skip(1);
            if named.contains(r) {
                let m = choose|m: int| 0 <= m < named.len() && named[m] == r;
                assert(srcs[m + 1] == r);
            }
            if exists|m: int| 1 <= m < count && #[trigger] srcs[m] == r {
                let m = choose|m: int| 1 <= m < count && #[trigger] srcs[m] == r;
                assert(named[m - 1] == r);
            }
        }
        assert(open@ =~= now);
    }
}

/// Checks that no instruction of a linearized program depends on a loop that
/// has ended. A range opens its loop, an `End` closes the loops that it names,
/// and an `After` sheds the loops that its dependencies end.
pub fn check_phi_dominance(graph: &Graph, linear: &[usize]) -> (result: Result<(), String>)
    requires
        graph.wf(),
        forall|i: int| 0 <= i < linear@.len() ==> (#[trigger] linear@[i]) < graph@.len(),
    ensures
        result is Ok <==> phi_dominates(graph@, linear@),
        result matches Err(message) ==> exists|i: usize, closed: usize| #[trigger]
            first_use(graph@, linear@, i as int, closed) && message@ == report(
                graph@[linear@[i as int] as int].op,
                i,
                closed,
            ),
{
    let ghost dag = graph@;
    let mut deps: HashMap<usize, HashSet<usize>> = HashMap::new();
    let mut open: HashSet<usize> = HashSet::new();
    let mut idx: usize = 0;
    assert(table(deps@) =~= Map::<usize, Set<usize>>::empty());
    while idx < linear.len()
        invariant
            graph.wf(),
            dag == graph@,
            forall|i: int| 0 <= i < linear@.len() ==> (#[trigger] linear@[i]) < dag.len(),
            idx <= linear@.len(),
            table(deps@) == phi_state(dag, linear@, idx as nat).deps,
            open@ == phi_state(dag, linear@, idx as nat).open,
            forall|j: int, r: usize| 0 <= j < idx ==> !#[trigger] uses_closed(dag, linear@, j, r),
        decreases linear@.len() - idx,
    {
        let ghost state = phi_state(dag, linear@, idx as nat);
        let id: usize = linear[idx];
        let mut deps_of = inherited_deps(&deps, graph, id);
        match graph.op(id) {
            Op::Range { .. } => {
                deps_of.insert(id);
                open.insert(id);
            },
            Op::End => {
                if let Err(message) = require_open(&deps_of, &open, idx, "END") {
                    proof {
                        let closed = choose|closed: usize|
                            deps_of@.contains(closed) && !open@.contains(closed) && message@
                                == #[trigger] closed_message("END"@, idx, closed);
                        assert(uses_closed(dag, linear@, idx as int, closed));
                        assert(first_use(dag, linear@, idx as int, closed));
                    }
                    return Err(message);
                }
                close_ranges(&mut open, graph, id);
            },
            Op::After => {
                shed_ended(&mut deps_of, &deps, graph, id);
                assert(deps_of@ =~= carried(dag, state.deps, id));
                if let Err(message) = require_open(&deps_of, &open, idx, "AFTER") {
                    proof {
                        let closed = choose|closed: usize|
                            deps_of@.contains(closed) && !open@.contains(closed) && message@
                                == #[trigger] closed_message("AFTER"@, idx, closed);
                        assert(uses_closed(dag, linear@, idx as int, closed));
                        assert(first_use(dag, linear@, idx as int, closed));
                    }
                    return Err(message);
                }
            },
            op => {
                if let Some(closed) = find_closed(&deps_of, &open) {
                    assert(uses_closed(dag, linear@, idx as int, closed));
                    assert(first_use(dag, linear@, idx as int, closed));
                    return Err(violation(op, idx, closed));
                }
            },
        }
        assert(deps_of@ =~= carried(dag, state.deps, id));
        let ghost set = deps_of@;
        let ghost was = deps@;
        deps.insert(id, deps_of);
        proof {
            assert(table(deps@) =~= table(was).insert(id, set));
            assert(open@ =~= advance(dag, state, id).open);
            assert(phi_state(dag, linear@, (idx + 1) as nat) == advance(dag, state, id));
        }
        idx += 1;
    }
    Ok(())
}

} // verus!
