//! Which devices a graph runs on: a kernel runs on one, and only a copy goes
//! from one to another.

use vstd::prelude::*;

use crate::graph::{dag_wf, Graph, NodeView, Op};
use crate::meaning::lemma_arity;
use crate::passes::sources;
use crate::topo::topo;

verus! {

/// A device.
#[derive(Clone, Copy, Debug, PartialEq, Eq, Structural)]
pub enum DeviceSpec {
    Cpu,
    Cuda { device_id: usize },
    Amd { device_id: usize },
}

/// The devices that nodes name: storage the one that holds it, a copy or a
/// reduction over devices the one that it goes to, and a staged value the one
/// that it is staged on.
#[derive(Debug)]
pub struct Devices {
    pub named: Vec<Option<DeviceSpec>>,
}

/// The device that a node names.
pub open spec fn named_device(named: Seq<Option<DeviceSpec>>, id: usize) -> Option<DeviceSpec> {
    if id < named.len() {
        named[id as int]
    } else {
        None
    }
}

impl View for Devices {
    type V = Seq<Option<DeviceSpec>>;

    open spec fn view(&self) -> Seq<Option<DeviceSpec>> {
        self.named@
    }
}

impl Devices {
    /// No node names a device.
    pub fn new() -> (devices: Devices)
        ensures
            forall|id: usize| (#[trigger] named_device(devices@, id)) is None,
    {
        Devices { named: Vec::new() }
    }

    /// Lets a node name a device; the last one counts.
    pub fn place(&mut self, id: usize, device: DeviceSpec)
        requires
            id < usize::MAX,
        ensures
            forall|x: usize| #[trigger]
                named_device(final(self)@, x) == if x == id {
                    Some(device)
                } else {
                    named_device(old(self)@, x)
                },
    {
        let ghost before = self@;
        while self.named.len() <= id
            invariant
                id < usize::MAX,
                before.len() <= self.named@.len(),
                self.named@.len() <= before.len() || self.named@.len() <= id + 1,
                forall|x: usize| #[trigger]
                    named_device(self.named@, x) == named_device(before, x),
            decreases id + 1 - self.named@.len(),
        {
            let ghost held = self.named@;
            self.named.push(None);
            assert forall|x: usize| #[trigger]
                named_device(self.named@, x) == named_device(before, x) by {
                assert(named_device(held, x) == named_device(before, x));
            }
        }
        let ghost held = self.named@;
        self.named.set(id, Some(device));
        assert forall|x: usize| #[trigger] named_device(self.named@, x) == if x == id {
            Some(device)
        } else {
            named_device(before, x)
        } by {
            assert(named_device(held, x) == named_device(before, x));
        }
    }

    /// The device that a node names.
    pub fn named(&self, id: usize) -> (device: Option<DeviceSpec>)
        ensures
            device == named_device(self@, id),
    {
        if id < self.named.len() {
            self.named[id]
        } else {
            None
        }
    }
}

/// Whether an operation is asked for its device: storage, a copy, a reduction
/// over devices or a staged value.
pub open spec fn is_asked(op: Op) -> bool {
    op is Buffer || op is Copy || op is AllReduce || op is Stage
}

/// The device that a node is asked for.
pub open spec fn asked_device(
    dag: Seq<NodeView>,
    named: Seq<Option<DeviceSpec>>,
    id: usize,
) -> Option<DeviceSpec> {
    if is_asked(dag[id as int].op) {
        named_device(named, id)
    } else {
        None
    }
}

/// The first device that the first `n` nodes of a walk name.
pub open spec fn first_device(
    dag: Seq<NodeView>,
    named: Seq<Option<DeviceSpec>>,
    walk: Seq<usize>,
    n: nat,
) -> Option<DeviceSpec>
    decreases n,
{
    if n == 0 {
        None
    } else {
        match first_device(dag, named, walk, (n - 1) as nat) {
            Some(device) => Some(device),
            None => asked_device(dag, named, walk[n - 1]),
        }
    }
}

/// The first device that is named at or below a root, sources first.
pub fn extract_device_from_graph(graph: &Graph, devices: &Devices, root: usize) -> (device: Option<
    DeviceSpec,
>)
    requires
        graph.wf(),
        root < graph@.len(),
    ensures
        device == first_device(graph@, devices@, topo(graph@, root), topo(graph@, root).len()),
{
    let walk = graph.toposort(root);
    let mut found: Option<DeviceSpec> = None;
    let mut n: usize = 0;
    while n < walk.len()
        invariant
            graph.wf(),
            forall|p: int| 0 <= p < walk@.len() ==> (#[trigger] walk@[p]) < graph@.len(),
            n <= walk@.len(),
            found == first_device(graph@, devices@, walk@, n as nat),
        decreases walk@.len() - n,
    {
        let id: usize = walk[n];
        let asked: bool = match graph.op(id) {
            Op::Buffer { .. } | Op::Copy | Op::AllReduce(_) | Op::Stage { .. } => true,
            _ => false,
        };
        if found.is_none() && asked {
            found = devices.named(id);
        }
        n += 1;
    }
    found
}

/// The device that a value is on: the one that its node names, or else that of
/// its first source that is on one.
pub open spec fn device_of(
    dag: Seq<NodeView>,
    named: Seq<Option<DeviceSpec>>,
    id: usize,
) -> Option<DeviceSpec>
    decreases id, dag[id as int].srcs.len() + 1,
{
    match named_device(named, id) {
        Some(device) => Some(device),
        None => source_device(dag, named, id, dag[id as int].srcs.len()),
    }
}

/// The device of the first of `n` sources that is on one.
pub open spec fn source_device(
    dag: Seq<NodeView>,
    named: Seq<Option<DeviceSpec>>,
    id: usize,
    n: nat,
) -> Option<DeviceSpec>
    decreases id, n,
{
    if n == 0 {
        None
    } else {
        match source_device(dag, named, id, (n - 1) as nat) {
            Some(device) => Some(device),
            None => if dag[id as int].srcs[n - 1] < id {
                device_of(dag, named, dag[id as int].srcs[n - 1])
            } else {
                None
            },
        }
    }
}

fn row_device(
    graph: &Graph,
    devices: &Devices,
    id: usize,
    rows: &Vec<Option<DeviceSpec>>,
) -> (device: Option<DeviceSpec>)
    requires
        graph.wf(),
        id < graph@.len(),
        rows@.len() >= id,
        forall|x: usize| x < id ==> #[trigger] rows@[x as int] == device_of(graph@, devices@, x),
    ensures
        device == device_of(graph@, devices@, id),
{
    match devices.named(id) {
        Some(device) => {
            return Some(device);
        },
        None => {},
    }
    let srcs = sources(graph, id);
    let mut found: Option<DeviceSpec> = None;
    let mut n: usize = 0;
    while n < srcs.len()
        invariant
            srcs@ == graph@[id as int].srcs,
            forall|k: int| 0 <= k < srcs@.len() ==> (#[trigger] srcs@[k]) < id,
            rows@.len() >= id,
            forall|x: usize|
                x < id ==> #[trigger] rows@[x as int] == device_of(graph@, devices@, x),
            n <= srcs@.len(),
            found == source_device(graph@, devices@, id, n as nat),
        decreases srcs@.len() - n,
    {
        if found.is_none() {
            let src: usize = srcs[n];
            found = rows[src];
        }
        n += 1;
    }
    found
}

/// The device that a value is on; see `device_of`.
pub fn find_device(graph: &Graph, devices: &Devices, id: usize) -> (device: Option<DeviceSpec>)
    requires
        graph.wf(),
        id < graph@.len(),
    ensures
        device == device_of(graph@, devices@, id),
{
    let mut rows: Vec<Option<DeviceSpec>> = Vec::new();
    let mut at: usize = 0;
    while at < id
        invariant
            graph.wf(),
            at <= id < graph@.len(),
            rows@.len() == at,
            forall|x: usize|
                x < at ==> #[trigger] rows@[x as int] == device_of(graph@, devices@, x),
        decreases id - at,
    {
        let device = row_device(graph, devices, at, &rows);
        rows.push(device);
        at += 1;
    }
    row_device(graph, devices, id, &rows)
}

/// Whether a copy stays on the device that its source is on.
pub open spec fn stays(dag: Seq<NodeView>, named: Seq<Option<DeviceSpec>>, id: usize) -> bool {
    let node = dag[id as int];
    node.op is Copy && named_device(named, id) is Some && device_of(dag, named, node.srcs[0])
        == named_device(named, id)
}

/// What takes the place of a copy that stays where it is: its source.
pub fn drop_copy(graph: &Graph, devices: &Devices, id: usize) -> (source: Option<usize>)
    requires
        graph.wf(),
        id < graph@.len(),
    ensures
        source == if stays(graph@, devices@, id) {
            Some(graph@[id as int].srcs[0])
        } else {
            None
        },
{
    proof {
        lemma_arity(graph@, id);
    }
    match graph.op(id) {
        Op::Copy => {},
        _ => {
            return None;
        },
    }
    let source: usize = graph.source(id, 0);
    match (devices.named(id), find_device(graph, devices, source)) {
        (Some(to), Some(from)) => {
            if to == from {
                Some(source)
            } else {
                None
            }
        },
        _ => None,
    }
}

/// The source of a copy that stays is on the device of the copy.
pub proof fn lemma_dropped_copy_keeps_device(
    dag: Seq<NodeView>,
    named: Seq<Option<DeviceSpec>>,
    id: usize,
)
    requires
        dag_wf(dag),
        id < dag.len(),
        stays(dag, named, id),
    ensures
        device_of(dag, named, dag[id as int].srcs[0]) == device_of(dag, named, id),
{
}

/// The devices of the first `n` operands of a call but for its body, each once.
/// A variable that is bound is passed by value, wherever that is held.
pub open spec fn used_devices(
    dag: Seq<NodeView>,
    named: Seq<Option<DeviceSpec>>,
    call: usize,
    n: nat,
) -> Seq<DeviceSpec>
    decreases n,
{
    if n <= 1 {
        Seq::empty()
    } else {
        let rest = used_devices(dag, named, call, (n - 1) as nat);
        let arg = dag[call as int].srcs[n - 1];
        match device_of(dag, named, arg) {
            Some(device) => if dag[arg as int].op is Bind || rest.contains(device) {
                rest
            } else {
                rest.push(device)
            },
            None => rest,
        }
    }
}

/// A kernel reads and writes more than one device.
#[derive(Debug, PartialEq, Eq)]
pub struct KernelSplitMixedDevices {
    pub devices: Vec<DeviceSpec>,
}

/// Whether a call copies.
pub open spec fn is_copy_call(dag: Seq<NodeView>, call: usize) -> bool {
    dag[dag[call as int].srcs[0] as int].op is Copy
}

fn holds(list: &Vec<DeviceSpec>, device: DeviceSpec) -> (r: bool)
    ensures
        r == list@.contains(device),
{
    let mut n: usize = 0;
    while n < list.len()
        invariant
            n <= list@.len(),
            forall|k: int| 0 <= k < n ==> list@[k] != device,
        decreases list@.len() - n,
    {
        if list[n] == device {
            assert(list@[n as int] == device);
            return true;
        }
        n += 1;
    }
    false
}

/// The device that a kernel runs on, if it binds storage of one. One that binds
/// storage of several is refused, unless it is a copy.
pub fn kernel_device(graph: &Graph, devices: &Devices, call: usize) -> (device: Result<
    Option<DeviceSpec>,
    KernelSplitMixedDevices,
>)
    requires
        graph.wf(),
        call < graph@.len(),
        graph@[call as int].op is Call,
    ensures
        ({
            let used = used_devices(graph@, devices@, call, graph@[call as int].srcs.len());
            match device {
                Ok(one) => (used.len() <= 1 || is_copy_call(graph@, call)) && one == (
                if used.len() == 0 {
                    None
                } else {
                    Some(used[0])
                }),
                Err(mixed) => used.len() > 1 && !is_copy_call(graph@, call) && mixed.devices@
                    == used,
            }
        }),
{
    proof {
        lemma_arity(graph@, call);
    }
    let srcs = sources(graph, call);
    let mut used: Vec<DeviceSpec> = Vec::new();
    let mut n: usize = 1;
    while n < srcs.len()
        invariant
            graph.wf(),
            call < graph@.len(),
            srcs@ == graph@[call as int].srcs,
            forall|k: int| 0 <= k < srcs@.len() ==> (#[trigger] srcs@[k]) < call,
            1 <= n <= srcs@.len(),
            used@ == used_devices(graph@, devices@, call, n as nat),
        decreases srcs@.len() - n,
    {
        let arg: usize = srcs[n];
        let bound: bool = match graph.op(arg) {
            Op::Bind => true,
            _ => false,
        };
        match find_device(graph, devices, arg) {
            Some(device) => {
                if !bound && !holds(&used, device) {
                    used.push(device);
                }
            },
            None => {},
        }
        n += 1;
    }
    let copies: bool = match graph.op(srcs[0]) {
        Op::Copy => true,
        _ => false,
    };
    if used.len() > 1 && !copies {
        return Err(KernelSplitMixedDevices { devices: used });
    }
    if used.len() == 0 {
        Ok(None)
    } else {
        Ok(Some(used[0]))
    }
}

/// The devices of a call are those of the storage that it binds.
proof fn lemma_used(
    dag: Seq<NodeView>,
    named: Seq<Option<DeviceSpec>>,
    call: usize,
    n: nat,
    k: int,
)
    requires
        1 <= k < n,
        !(dag[dag[call as int].srcs[k] as int].op is Bind),
        device_of(dag, named, dag[call as int].srcs[k]) is Some,
    ensures
        used_devices(dag, named, call, n).contains(
            device_of(dag, named, dag[call as int].srcs[k])->0,
        ),
    decreases n,
{
    let device = device_of(dag, named, dag[call as int].srcs[k])->0;
    let list = used_devices(dag, named, call, n);
    let rest = used_devices(dag, named, call, (n - 1) as nat);
    if k < n - 1 {
        lemma_used(dag, named, call, (n - 1) as nat, k);
        let p = choose|p: int| 0 <= p < rest.len() && rest[p] == device;
        assert(list[p] == device);
    } else if !rest.contains(device) {
        assert(list.last() == device);
    }
}

/// A kernel that is accepted and does not copy binds storage of one device.
pub proof fn lemma_kernel_has_one_device(
    dag: Seq<NodeView>,
    named: Seq<Option<DeviceSpec>>,
    call: usize,
    j: int,
    k: int,
)
    requires
        used_devices(dag, named, call, dag[call as int].srcs.len()).len() <= 1,
        1 <= j < dag[call as int].srcs.len(),
        1 <= k < dag[call as int].srcs.len(),
        !(dag[dag[call as int].srcs[j] as int].op is Bind),
        !(dag[dag[call as int].srcs[k] as int].op is Bind),
        device_of(dag, named, dag[call as int].srcs[j]) is Some,
        device_of(dag, named, dag[call as int].srcs[k]) is Some,
    ensures
        device_of(dag, named, dag[call as int].srcs[j]) == device_of(
            dag,
            named,
            dag[call as int].srcs[k],
        ),
{
    lemma_used(dag, named, call, dag[call as int].srcs.len(), j);
    lemma_used(dag, named, call, dag[call as int].srcs.len(), k);
}

} // verus!
