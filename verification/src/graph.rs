//! The deterministic dependency graph of a document's parametric features.
//!
//! The graph is rebuilt from the feature list and never stores kernel
//! objects. Its order is fixed by the feature-list order: at every step the
//! earliest listed feature whose dependencies are all placed comes next, so
//! dependencies always precede their consumers.

use vstd::prelude::*;

use crate::feature::{DocumentError, DocumentFault, FeatureId, FeatureLink, FeatureNode, SketchPlane};

verus! {

/// What a dependency of a feature must be.
#[derive(Clone, Copy, Debug, PartialEq, Eq, Structural)]
pub enum Expect {
    /// Any existing feature that creates a solid (no sketch or datum).
    Solid,
    Sketch,
    DatumPlane,
    /// Any existing feature.
    Feature,
}

impl Expect {
    pub open spec fn text(self) -> Seq<char> {
        match self {
            Expect::Solid => "solid feature"@,
            Expect::Sketch => "sketch"@,
            Expect::DatumPlane => "datum plane"@,
            Expect::Feature => "feature"@,
        }
    }

    pub fn label(self) -> (s: &'static str)
        ensures
            s@ == self.text(),
    {
        match self {
            Expect::Solid => "solid feature",
            Expect::Sketch => "sketch",
            Expect::DatumPlane => "datum plane",
            Expect::Feature => "feature",
        }
    }
}

/// What every dependency of a feature of this kind must be.
pub open spec fn expectation(link: FeatureLink) -> Expect {
    match link {
        FeatureLink::Boolean { .. } | FeatureLink::EdgeModifier { .. } | FeatureLink::DatumPlane {
            ..
        } | FeatureLink::DatumPoint { .. } => Expect::Solid,
        FeatureLink::Loft { .. } | FeatureLink::SketchProfile { .. } => Expect::Sketch,
        FeatureLink::Sketch { plane } => match plane {
            SketchPlane::DatumPlane { .. } => Expect::DatumPlane,
            SketchPlane::PlanarFace { .. } => Expect::Solid,
            _ => Expect::Feature,
        },
        FeatureLink::Standalone => Expect::Feature,
    }
}

pub open spec fn has_node(nodes: Seq<FeatureNode>, id: FeatureId) -> bool {
    exists|i: int| 0 <= i < nodes.len() && #[trigger] nodes[i].id == id
}

/// The first node with id `id`, searching from position `i`.
pub open spec fn find_from(nodes: Seq<FeatureNode>, id: FeatureId, i: int) -> Option<int>
    decreases nodes.len() - i,
{
    if i < 0 || i >= nodes.len() {
        None
    } else if nodes[i].id == id {
        Some(i)
    } else {
        find_from(nodes, id, i + 1)
    }
}

/// The kind of the first node with id `id`.
pub open spec fn lookup(nodes: Seq<FeatureNode>, id: FeatureId) -> Option<FeatureLink> {
    match find_from(nodes, id, 0) {
        Some(i) => Some(nodes[i].link),
        None => None,
    }
}

pub open spec fn dep_ok(nodes: Seq<FeatureNode>, d: FeatureId, e: Expect) -> bool {
    match lookup(nodes, d) {
        None => false,
        Some(link) => match e {
            Expect::Solid => !link.is_reference(),
            Expect::Sketch => link is Sketch,
            Expect::DatumPlane => link is DatumPlane,
            Expect::Feature => true,
        },
    }
}

/// The first of `ds` that is not what `e` asks for.
pub open spec fn first_bad(nodes: Seq<FeatureNode>, ds: Seq<FeatureId>, e: Expect) -> Option<
    FeatureId,
>
    decreases ds.len(),
{
    if ds.len() == 0 {
        None
    } else if !dep_ok(nodes, ds[0], e) {
        Some(ds[0])
    } else {
        first_bad(nodes, ds.drop_first(), e)
    }
}

/// The dependency that node `n` is refused for, with what was expected of it.
pub open spec fn node_problem(nodes: Seq<FeatureNode>, n: FeatureNode) -> Option<
    (FeatureId, Expect),
> {
    let e = expectation(n.link);
    match first_bad(nodes, n.link.deps(), e) {
        Some(d) => Some((d, e)),
        None => match first_bad(nodes, n.link.deps(), Expect::Feature) {
            Some(d) => Some((d, Expect::Feature)),
            None => None,
        },
    }
}

pub open spec fn repeats_earlier(nodes: Seq<FeatureNode>, i: int) -> bool {
    exists|j: int| 0 <= j < i && #[trigger] nodes[j].id == nodes[i].id
}

/// The id of the first node, from position `i` on, that repeats an earlier id.
pub open spec fn duplicate_from(nodes: Seq<FeatureNode>, i: int) -> Option<FeatureId>
    decreases nodes.len() - i,
{
    if i < 0 || i >= nodes.len() {
        None
    } else if repeats_earlier(nodes, i) {
        Some(nodes[i].id)
    } else {
        duplicate_from(nodes, i + 1)
    }
}

/// The first node, from position `i` on, refused for one of its dependencies.
pub open spec fn problem_from(nodes: Seq<FeatureNode>, i: int) -> Option<DocumentFault>
    decreases nodes.len() - i,
{
    if i < 0 || i >= nodes.len() {
        None
    } else {
        match node_problem(nodes, nodes[i]) {
            Some((d, e)) => Some(
                DocumentFault::InvalidDependency {
                    feature: nodes[i].id,
                    dependency: d,
                    expected: e.text(),
                },
            ),
            None => problem_from(nodes, i + 1),
        }
    }
}

/// Why a feature list has no graph, before ordering is tried: a repeated id
/// first, then the first feature with a missing or incompatible dependency.
pub open spec fn graph_problem(nodes: Seq<FeatureNode>) -> Option<DocumentFault> {
    match duplicate_from(nodes, 0) {
        Some(id) => Some(DocumentFault::InvalidFeatureId(id)),
        None => problem_from(nodes, 0),
    }
}

/// Node `i` is not placed yet and all its dependencies are.
pub open spec fn ready(nodes: Seq<FeatureNode>, placed: Seq<FeatureId>, i: int) -> bool {
    &&& 0 <= i < nodes.len()
    &&& !placed.contains(nodes[i].id)
    &&& forall|k: int|
        0 <= k < nodes[i].link.deps().len() ==> placed.contains(#[trigger] nodes[i].link.deps()[k])
}

/// The first ready node from position `i` on.
pub open spec fn ready_from(nodes: Seq<FeatureNode>, placed: Seq<FeatureId>, i: int) -> Option<int>
    decreases nodes.len() - i,
{
    if i < 0 || i >= nodes.len() {
        None
    } else if ready(nodes, placed, i) {
        Some(i)
    } else {
        ready_from(nodes, placed, i + 1)
    }
}

/// Places up to `fuel` more features, each time the first ready one.
pub open spec fn schedule_from(nodes: Seq<FeatureNode>, placed: Seq<FeatureId>, fuel: nat) -> Seq<
    FeatureId,
>
    decreases fuel,
{
    if fuel == 0 {
        placed
    } else {
        match ready_from(nodes, placed, 0) {
            Some(i) => schedule_from(nodes, placed.push(nodes[i].id), (fuel - 1) as nat),
            None => placed,
        }
    }
}

/// The feature order: repeatedly the earliest listed feature whose
/// dependencies are all placed, until none is left or none is ready.
pub open spec fn schedule(nodes: Seq<FeatureNode>) -> Seq<FeatureId> {
    schedule_from(nodes, Seq::empty(), nodes.len())
}

/// Ids of the nodes not in `placed`, in list order.
pub open spec fn unplaced(nodes: Seq<FeatureNode>, placed: Seq<FeatureId>) -> Seq<FeatureId>
    decreases nodes.len(),
{
    if nodes.len() == 0 {
        Seq::empty()
    } else if placed.contains(nodes.last().id) {
        unplaced(nodes.drop_last(), placed)
    } else {
        unplaced(nodes.drop_last(), placed).push(nodes.last().id)
    }
}

pub open spec fn node_ids(nodes: Seq<FeatureNode>) -> Seq<FeatureId> {
    nodes.map_values(|n: FeatureNode| n.id)
}

pub open spec fn node_deps(nodes: Seq<FeatureNode>) -> Seq<Seq<FeatureId>> {
    nodes.map_values(|n: FeatureNode| n.link.deps())
}

/// `x` repeated `n` times.
pub open spec fn repeat(x: FeatureId, n: nat) -> Seq<FeatureId> {
    Seq::new(n, |_j: int| x)
}

/// How often `d` occurs in `s`.
pub open spec fn occurrences(s: Seq<FeatureId>, d: FeatureId) -> nat
    decreases s.len(),
{
    if s.len() == 0 {
        0
    } else {
        occurrences(s.drop_last(), d) + if s.last() == d {
            1nat
        } else {
            0nat
        }
    }
}

/// The features consuming `d`, in list order, once per use.
pub open spec fn dependents_of(nodes: Seq<FeatureNode>, d: FeatureId) -> Seq<FeatureId>
    decreases nodes.len(),
{
    if nodes.len() == 0 {
        Seq::empty()
    } else {
        dependents_of(nodes.drop_last(), d) + repeat(
            nodes.last().id,
            occurrences(nodes.last().link.deps(), d),
        )
    }
}

/// A feature graph, as plain values: the order, the feature ids in list
/// order, and for each feature its dependencies and dependents.
pub struct GraphView {
    pub order: Seq<FeatureId>,
    pub ids: Seq<FeatureId>,
    pub deps: Seq<Seq<FeatureId>>,
    pub dependents: Seq<Seq<FeatureId>>,
}

/// The graph of a feature list that has one.
pub open spec fn graph_of(nodes: Seq<FeatureNode>) -> GraphView {
    GraphView {
        order: schedule(nodes),
        ids: node_ids(nodes),
        deps: node_deps(nodes),
        dependents: Seq::new(nodes.len(), |j: int| dependents_of(nodes, nodes[j].id)),
    }
}

/// Deterministic dependency graph for a document's parametric features.
pub struct FeatureGraph {
    order: Vec<FeatureId>,
    ids: Vec<FeatureId>,
    deps: Vec<Vec<FeatureId>>,
    dependents: Vec<Vec<FeatureId>>,
}

impl View for FeatureGraph {
    type V = GraphView;

    closed spec fn view(&self) -> GraphView {
        GraphView {
            order: self.order@,
            ids: self.ids@,
            deps: self.deps@.map_values(|v: Vec<FeatureId>| v@),
            dependents: self.dependents@.map_values(|v: Vec<FeatureId>| v@),
        }
    }
}

fn find_node(nodes: &[FeatureNode], id: FeatureId) -> (r: Option<usize>)
    ensures
        r matches Some(i) ==> find_from(nodes@, id, 0) == Some(i as int),
        r is None ==> find_from(nodes@, id, 0) is None,
        r is None <==> !has_node(nodes@, id),
        r matches Some(i) ==> i < nodes@.len() && nodes@[i as int].id == id,
{
    let mut i: usize = 0;
    while i < nodes.len()
        invariant
            i <= nodes@.len(),
            find_from(nodes@, id, 0) == find_from(nodes@, id, i as int),
            forall|j: int| 0 <= j < i ==> nodes@[j].id != id,
        decreases nodes@.len() - i,
    {
        if nodes[i].id == id {
            return Some(i);
        }
        i += 1;
    }
    proof {
        if has_node(nodes@, id) {
            let j = choose|j: int| 0 <= j < nodes@.len() && #[trigger] nodes@[j].id == id;
            assert(nodes@[j].id == id);
        }
    }
    None
}

fn dep_is_ok(nodes: &[FeatureNode], d: FeatureId, e: Expect) -> (r: bool)
    ensures
        r == dep_ok(nodes@, d, e),
{
    match find_node(nodes, d) {
        None => false,
        Some(i) => match e {
            Expect::Solid => !nodes[i].link.is_reference_geometry(),
            Expect::Sketch => match nodes[i].link {
                FeatureLink::Sketch { .. } => true,
                _ => false,
            },
            Expect::DatumPlane => match nodes[i].link {
                FeatureLink::DatumPlane { .. } => true,
                _ => false,
            },
            Expect::Feature => true,
        },
    }
}

fn first_bad_dep(nodes: &[FeatureNode], ds: &Vec<FeatureId>, e: Expect) -> (r: Option<FeatureId>)
    ensures
        r == first_bad(nodes@, ds@, e),
{
    proof {
        assert(ds@.skip(0) =~= ds@);
    }
    let mut k: usize = 0;
    while k < ds.len()
        invariant
            k <= ds@.len(),
            first_bad(nodes@, ds@, e) == first_bad(nodes@, ds@.skip(k as int), e),
        decreases ds@.len() - k,
    {
        proof {
            assert(ds@.skip(k as int).drop_first() =~= ds@.skip(k + 1));
            assert(ds@.skip(k as int)[0] == ds@[k as int]);
        }
        if !dep_is_ok(nodes, ds[k], e) {
            return Some(ds[k]);
        }
        k += 1;
    }
    None
}

fn expectation_of(link: &FeatureLink) -> (e: Expect)
    ensures
        e == expectation(*link),
{
    match link {
        FeatureLink::Boolean { .. } | FeatureLink::EdgeModifier { .. } | FeatureLink::DatumPlane {
            ..
        } | FeatureLink::DatumPoint { .. } => Expect::Solid,
        FeatureLink::Loft { .. } | FeatureLink::SketchProfile { .. } => Expect::Sketch,
        FeatureLink::Sketch { plane } => match plane {
            SketchPlane::DatumPlane { .. } => Expect::DatumPlane,
            SketchPlane::PlanarFace { .. } => Expect::Solid,
            _ => Expect::Feature,
        },
        FeatureLink::Standalone => Expect::Feature,
    }
}

/// Whether every one of `ds` is among the placed features.
fn all_placed(nodes: &[FeatureNode], placed: &Vec<bool>, ds: &Vec<FeatureId>, order: Ghost<Seq<FeatureId>>) -> (r: bool)
    requires
        placed@.len() == nodes@.len(),
        forall|j: int| 0 <= j < nodes@.len() ==> (#[trigger] placed@[j] <==> order@.contains(nodes@[j].id)),
        forall|x: FeatureId| order@.contains(x) ==> has_node(nodes@, x),
    ensures
        r == (forall|k: int| 0 <= k < ds@.len() ==> order@.contains(#[trigger] ds@[k])),
{
    let mut k: usize = 0;
    while k < ds.len()
        invariant
            k <= ds@.len(),
            placed@.len() == nodes@.len(),
            forall|j: int| 0 <= j < nodes@.len() ==> (#[trigger] placed@[j] <==> order@.contains(nodes@[j].id)),
            forall|x: FeatureId| order@.contains(x) ==> has_node(nodes@, x),
            forall|m: int| 0 <= m < k ==> order@.contains(#[trigger] ds@[m]),
        decreases ds@.len() - k,
    {
        match find_node(nodes, ds[k]) {
            None => {
                return false;
            },
            Some(j) => {
                if !placed[j] {
                    return false;
                }
            },
        }
        k += 1;
    }
    true
}

fn first_ready(nodes: &[FeatureNode], placed: &Vec<bool>, order: Ghost<Seq<FeatureId>>) -> (r:
    Option<usize>)
    requires
        placed@.len() == nodes@.len(),
        forall|j: int| 0 <= j < nodes@.len() ==> (#[trigger] placed@[j] <==> order@.contains(nodes@[j].id)),
        forall|x: FeatureId| order@.contains(x) ==> has_node(nodes@, x),
    ensures
        r matches Some(i) ==> ready_from(nodes@, order@, 0) == Some(i as int) && i < nodes@.len(),
        r is None ==> ready_from(nodes@, order@, 0) is None,
{
    let mut i: usize = 0;
    while i < nodes.len()
        invariant
            i <= nodes@.len(),
            placed@.len() == nodes@.len(),
            forall|j: int| 0 <= j < nodes@.len() ==> (#[trigger] placed@[j] <==> order@.contains(nodes@[j].id)),
            forall|x: FeatureId| order@.contains(x) ==> has_node(nodes@, x),
            ready_from(nodes@, order@, 0) == ready_from(nodes@, order@, i as int),
        decreases nodes@.len() - i,
    {
        if !placed[i] {
            let ds = nodes[i].link.dependencies();
            if all_placed(nodes, placed, &ds, order) {
                return Some(i);
            }
        }
        i += 1;
    }
    None
}

fn dependents_for(nodes: &[FeatureNode], d: FeatureId) -> (v: Vec<FeatureId>)
    ensures
        v@ == dependents_of(nodes@, d),
{
    let mut v: Vec<FeatureId> = Vec::new();
    let mut i: usize = 0;
    proof {
        assert(nodes@.take(0) =~= Seq::<FeatureNode>::empty());
    }
    while i < nodes.len()
        invariant
            i <= nodes@.len(),
            v@ == dependents_of(nodes@.take(i as int), d),
        decreases nodes@.len() - i,
    {
        let ds = nodes[i].link.dependencies();
        let id = nodes[i].id;
        let ghost base = v@;
        let mut k: usize = 0;
        proof {
            assert(ds@.take(0) =~= Seq::<FeatureId>::empty());
            assert(base + repeat(id, 0) =~= base);
        }
        while k < ds.len()
            invariant
                k <= ds@.len(),
                v@ == base + repeat(id, occurrences(ds@.take(k as int), d)),
            decreases ds@.len() - k,
        {
            proof {
                assert(ds@.take(k + 1).drop_last() =~= ds@.take(k as int));
            }
            if ds[k] == d {
                v.push(id);
                proof {
                    assert(v@ =~= base + repeat(id, occurrences(ds@.take(k + 1), d)));
                }
            } else {
                proof {
                    assert(v@ =~= base + repeat(id, occurrences(ds@.take(k + 1), d)));
                }
            }
            k += 1;
        }
        proof {
            assert(ds@.take(ds@.len() as int) =~= ds@);
            assert(nodes@.take(i + 1).drop_last() =~= nodes@.take(i as int));
            assert(nodes@.take(i + 1).last() == nodes@[i as int]);
        }
        i += 1;
    }
    proof {
        assert(nodes@.take(nodes@.len() as int) =~= nodes@);
    }
    v
}

fn unplaced_ids(nodes: &[FeatureNode], placed: &Vec<bool>, order: Ghost<Seq<FeatureId>>) -> (v:
    Vec<FeatureId>)
    requires
        placed@.len() == nodes@.len(),
        forall|j: int| 0 <= j < nodes@.len() ==> (#[trigger] placed@[j] <==> order@.contains(nodes@[j].id)),
    ensures
        v@ == unplaced(nodes@, order@),
{
    let mut v: Vec<FeatureId> = Vec::new();
    let mut i: usize = 0;
    proof {
        assert(nodes@.take(0) =~= Seq::<FeatureNode>::empty());
    }
    while i < nodes.len()
        invariant
            i <= nodes@.len(),
            placed@.len() == nodes@.len(),
            forall|j: int| 0 <= j < nodes@.len() ==> (#[trigger] placed@[j] <==> order@.contains(nodes@[j].id)),
            v@ == unplaced(nodes@.take(i as int), order@),
        decreases nodes@.len() - i,
    {
        proof {
            assert(nodes@.take(i + 1).drop_last() =~= nodes@.take(i as int));
            assert(nodes@.take(i + 1).last() == nodes@[i as int]);
            assert(placed@[i as int] <==> order@.contains(nodes@[i as int].id));
        }
        if !placed[i] {
            v.push(nodes[i].id);
        }
        i += 1;
    }
    proof {
        assert(nodes@.take(nodes@.len() as int) =~= nodes@);
    }
    v
}

impl FeatureGraph {
    /// Builds the graph of a feature list: ids must be distinct, every
    /// dependency must exist and be of the kind its consumer needs, and the
    /// dependencies must not form a cycle.
    pub fn build(nodes: &[FeatureNode]) -> (r: Result<FeatureGraph, DocumentError>)
        ensures
            match graph_problem(nodes@) {
                Some(f) => r matches Err(e) && e@ == f,
                None => if schedule(nodes@).len() == nodes@.len() {
                    r matches Ok(g) && g@ == graph_of(nodes@)
                } else {
                    r matches Err(e) && e@ == (DocumentFault::DependencyCycle {
                        cycle: unplaced(nodes@, schedule(nodes@)),
                    })
                },
            },
    {
        let n = nodes.len();
        let mut i: usize = 0;
        while i < n
            invariant
                i <= n == nodes@.len(),
                duplicate_from(nodes@, 0) == duplicate_from(nodes@, i as int),
                forall|b: int| 0 <= b < i ==> !#[trigger] repeats_earlier(nodes@, b),
            decreases n - i,
        {
            let mut j: usize = 0;
            while j < i
                invariant
                    j <= i < n == nodes@.len(),
                    duplicate_from(nodes@, 0) == duplicate_from(nodes@, i as int),
                    forall|a: int| 0 <= a < j ==> nodes@[a].id != nodes@[i as int].id,
                decreases i - j,
            {
                if nodes[j].id == nodes[i].id {
                    proof {
                        assert(repeats_earlier(nodes@, i as int));
                    }
                    return Err(DocumentError::InvalidFeatureId(nodes[i].id));
                }
                j += 1;
            }
            i += 1;
        }
        proof {
            assert forall|a: int, b: int| 0 <= a < n && 0 <= b < n && a != b implies nodes@[a].id
                != nodes@[b].id by {
                if a < b {
                    assert(!repeats_earlier(nodes@, b));
                } else {
                    assert(!repeats_earlier(nodes@, a));
                }
            }
        }
        let mut i: usize = 0;
        while i < n
            invariant
                i <= n == nodes@.len(),
                duplicate_from(nodes@, 0) is None,
                problem_from(nodes@, 0) == problem_from(nodes@, i as int),
            decreases n - i,
        {
            let ds = nodes[i].link.dependencies();
            let e = expectation_of(&nodes[i].link);
            match first_bad_dep(nodes, &ds, e) {
                Some(d) => {
                    return Err(
                        DocumentError::InvalidDependency {
                            feature: nodes[i].id,
                            dependency: d,
                            expected: e.label(),
                        },
                    );
                },
                None => {},
            }
            match first_bad_dep(nodes, &ds, Expect::Feature) {
                Some(d) => {
                    return Err(
                        DocumentError::InvalidDependency {
                            feature: nodes[i].id,
                            dependency: d,
                            expected: Expect::Feature.label(),
                        },
                    );
                },
                None => {},
            }
            i += 1;
        }
        let mut placed: Vec<bool> = Vec::new();
        let mut i: usize = 0;
        while i < n
            invariant
                i <= n == nodes@.len(),
                placed@.len() == i,
                graph_problem(nodes@) is None,
                forall|j: int| 0 <= j < i ==> !#[trigger] placed@[j],
            decreases n - i,
        {
            placed.push(false);
            i += 1;
        }
        let mut order: Vec<FeatureId> = Vec::new();
        while order.len() < n
            invariant
                order@.len() <= n == nodes@.len(),
                placed@.len() == n,
                graph_problem(nodes@) is None,
                forall|a: int, b: int|
                    0 <= a < n && 0 <= b < n && a != b ==> nodes@[a].id != nodes@[b].id,
                forall|j: int| 0 <= j < n ==> (#[trigger] placed@[j] <==> order@.contains(nodes@[j].id)),
                forall|x: FeatureId| order@.contains(x) ==> has_node(nodes@, x),
                schedule(nodes@) == schedule_from(nodes@, order@, (n - order@.len()) as nat),
            decreases n - order@.len(),
        {
            match first_ready(nodes, &placed, Ghost(order@)) {
                None => {
                    let cycle = unplaced_ids(nodes, &placed, Ghost(order@));
                    return Err(DocumentError::DependencyCycle { cycle });
                },
                Some(i) => {
                    let ghost before = order@;
                    let id = nodes[i].id;
                    order.push(id);
                    placed.set(i, true);
                    proof {
                        assert forall|j: int| 0 <= j < n implies (#[trigger] placed@[j]
                            <==> order@.contains(nodes@[j].id)) by {
                            if j != i {
                                assert(nodes@[j].id != id);
                                if order@.contains(nodes@[j].id) {
                                    let k = choose|k: int| 0 <= k < order@.len() && order@[k] == nodes@[j].id;
                                    assert(before[k] == nodes@[j].id);
                                }
                                if before.contains(nodes@[j].id) {
                                    let k = choose|k: int| 0 <= k < before.len() && before[k] == nodes@[j].id;
                                    assert(order@[k] == nodes@[j].id);
                                }
                            } else {
                                assert(order@[order@.len() - 1] == id);
                            }
                        }
                        assert forall|x: FeatureId| order@.contains(x) implies has_node(nodes@, x) by {
                            let k = choose|k: int| 0 <= k < order@.len() && order@[k] == x;
                            if k < before.len() {
                                assert(before[k] == x);
                            } else {
                                assert(nodes@[i as int].id == x);
                            }
                        }
                    }
                },
            }
        }
        let mut ids: Vec<FeatureId> = Vec::new();
        let mut deps: Vec<Vec<FeatureId>> = Vec::new();
        let mut dependents: Vec<Vec<FeatureId>> = Vec::new();
        let mut i: usize = 0;
        while i < n
            invariant
                i <= n == nodes@.len(),
                ids@.len() == i,
                graph_problem(nodes@) is None,
                schedule(nodes@) == order@,
                order@.len() == n,
                deps@.len() == i,
                dependents@.len() == i,
                forall|k: int| 0 <= k < i ==> ids@[k] == nodes@[k].id,
                forall|k: int| 0 <= k < i ==> (#[trigger] deps@[k])@ == nodes@[k].link.deps(),
                forall|k: int|
                    0 <= k < i ==> (#[trigger] dependents@[k])@ == dependents_of(nodes@, nodes@[k].id),
            decreases n - i,
        {
            ids.push(nodes[i].id);
            deps.push(nodes[i].link.dependencies());
            dependents.push(dependents_for(nodes, nodes[i].id));
            i += 1;
        }
        proof {
            lemma_graph_of_wf(nodes@);
            assert(ids@ =~= graph_of(nodes@).ids);
            assert(deps@.map_values(|v: Vec<FeatureId>| v@) =~= graph_of(nodes@).deps);
            assert(dependents@.map_values(|v: Vec<FeatureId>| v@) =~= graph_of(nodes@).dependents);
        }
        let g = FeatureGraph { order, ids, deps, dependents };
        proof {
            assert(g@.ids =~= graph_of(nodes@).ids);
            assert(g@.deps =~= graph_of(nodes@).deps);
            assert(g@.dependents =~= graph_of(nodes@).dependents);
        }
        Ok(g)
    }
}

/// The dependencies of node `i` all come before position `k` of `placed`.
pub open spec fn deps_before(nodes: Seq<FeatureNode>, placed: Seq<FeatureId>, k: int, i: int) -> bool {
    forall|m: int|
        0 <= m < nodes[i].link.deps().len() ==> placed.take(k).contains(
            #[trigger] nodes[i].link.deps()[m],
        )
}

/// A partial order of features: distinct, all in the list, each after its
/// dependencies.
pub open spec fn sched_ok(nodes: Seq<FeatureNode>, placed: Seq<FeatureId>) -> bool {
    &&& placed.no_duplicates()
    &&& forall|k: int| 0 <= k < placed.len() ==> has_node(nodes, #[trigger] placed[k])
    &&& forall|k: int, i: int|
        #![trigger placed[k], nodes[i]]
        0 <= k < placed.len() && 0 <= i < nodes.len() && nodes[i].id == placed[k] ==> deps_before(
            nodes,
            placed,
            k,
            i,
        )
}

pub open spec fn ids_distinct(nodes: Seq<FeatureNode>) -> bool {
    forall|a: int, b: int|
        0 <= a < nodes.len() && 0 <= b < nodes.len() && a != b ==> nodes[a].id != nodes[b].id
}

pub proof fn lemma_ready_from(nodes: Seq<FeatureNode>, placed: Seq<FeatureId>, j: int)
    requires
        0 <= j,
    ensures
        ready_from(nodes, placed, j) matches Some(i) ==> j <= i && ready(nodes, placed, i),
        ready_from(nodes, placed, j) is None ==> forall|i: int|
            j <= i < nodes.len() ==> !#[trigger] ready(nodes, placed, i),
    decreases nodes.len() - j,
{
    if j < nodes.len() && !ready(nodes, placed, j) {
        lemma_ready_from(nodes, placed, j + 1);
    }
}

pub proof fn lemma_no_duplicate(nodes: Seq<FeatureNode>, i: int)
    requires
        0 <= i,
        duplicate_from(nodes, i) is None,
    ensures
        forall|b: int| i <= b < nodes.len() ==> !#[trigger] repeats_earlier(nodes, b),
    decreases nodes.len() - i,
{
    if i < nodes.len() {
        lemma_no_duplicate(nodes, i + 1);
    }
}

/// A list without a graph problem has distinct ids.
pub proof fn lemma_problem_free_distinct(nodes: Seq<FeatureNode>)
    requires
        graph_problem(nodes) is None,
    ensures
        ids_distinct(nodes),
{
    lemma_no_duplicate(nodes, 0);
    assert forall|a: int, b: int|
        0 <= a < nodes.len() && 0 <= b < nodes.len() && a != b implies nodes[a].id
        != nodes[b].id by {
        if a < b {
            assert(!repeats_earlier(nodes, b));
        } else {
            assert(!repeats_earlier(nodes, a));
        }
    }
}

pub proof fn lemma_schedule_from_ok(nodes: Seq<FeatureNode>, placed: Seq<FeatureId>, fuel: nat)
    requires
        ids_distinct(nodes),
        sched_ok(nodes, placed),
    ensures
        sched_ok(nodes, schedule_from(nodes, placed, fuel)),
    decreases fuel,
{
    if fuel > 0 {
        lemma_ready_from(nodes, placed, 0);
        if let Some(i) = ready_from(nodes, placed, 0) {
            let x = nodes[i].id;
            let q = placed.push(x);
            assert forall|k: int| 0 <= k < q.len() implies has_node(nodes, #[trigger] q[k]) by {
                if k < placed.len() {
                    assert(q[k] == placed[k]);
                } else {
                    assert(nodes[i].id == q[k]);
                }
            }
            assert forall|a: int, b: int|
                0 <= a < q.len() && 0 <= b < q.len() && a != b implies q[a] != q[b] by {
                if a == placed.len() {
                    assert(placed[b] == q[b]);
                } else if b == placed.len() {
                    assert(placed[a] == q[a]);
                }
            }
            assert forall|k: int, j: int|
                #![trigger q[k], nodes[j]]
                0 <= k < q.len() && 0 <= j < nodes.len() && nodes[j].id == q[k] implies deps_before(
                nodes,
                q,
                k,
                j,
            ) by {
                if k < placed.len() {
                    assert(q.take(k) =~= placed.take(k));
                    assert(placed[k] == q[k]);
                    assert(deps_before(nodes, placed, k, j));
                } else {
                    assert(q.take(k) =~= placed);
                    assert(j == i);
                }
            }
            lemma_schedule_from_ok(nodes, q, (fuel - 1) as nat);
        }
    }
}

/// The feature order never repeats a feature, lists only features of the
/// list, and places every feature after all of its dependencies.
pub proof fn law_schedule_respects_dependencies(nodes: Seq<FeatureNode>)
    requires
        graph_problem(nodes) is None,
    ensures
        sched_ok(nodes, schedule(nodes)),
{
    lemma_problem_free_distinct(nodes);
    lemma_schedule_from_ok(nodes, Seq::empty(), nodes.len());
}

/// When every feature is placed, the order is a permutation of the feature ids.
pub proof fn law_complete_schedule_is_permutation(nodes: Seq<FeatureNode>)
    requires
        graph_problem(nodes) is None,
        schedule(nodes).len() == nodes.len(),
    ensures
        schedule(nodes).to_set() == node_ids(nodes).to_set(),
{
    let s = schedule(nodes);
    let ids = node_ids(nodes);
    law_schedule_respects_dependencies(nodes);
    lemma_problem_free_distinct(nodes);
    assert forall|x: FeatureId| s.to_set().contains(x) implies ids.to_set().contains(x) by {
        let k = choose|k: int| 0 <= k < s.len() && s[k] == x;
        assert(has_node(nodes, s[k]));
        let i = choose|i: int| 0 <= i < nodes.len() && #[trigger] nodes[i].id == x;
        assert(ids[i] == x);
    }
    assert(ids.no_duplicates()) by {
        assert forall|a: int, b: int|
            0 <= a < ids.len() && 0 <= b < ids.len() && a != b implies ids[a] != ids[b] by {
            assert(nodes[a].id != nodes[b].id);
        }
    }
    s.unique_seq_to_set();
    ids.unique_seq_to_set();
    vstd::set_lib::lemma_subset_equality(s.to_set(), ids.to_set());
}

/// The built graph is well formed.
pub proof fn lemma_graph_of_wf(nodes: Seq<FeatureNode>)
    requires
        graph_problem(nodes) is None,
    ensures
        graph_wf(graph_of(nodes)),
{
    let g = graph_of(nodes);
    law_schedule_respects_dependencies(nodes);
    lemma_problem_free_distinct(nodes);
    assert forall|a: int, b: int|
        0 <= a < g.ids.len() && 0 <= b < g.ids.len() && a != b implies g.ids[a] != g.ids[b] by {
        assert(nodes[a].id != nodes[b].id);
    }
    assert forall|k: int| 0 <= k < g.order.len() implies g.ids.contains(#[trigger] g.order[k]) by {
        assert(has_node(nodes, g.order[k]));
        let i = choose|i: int| 0 <= i < nodes.len() && #[trigger] nodes[i].id == g.order[k];
        assert(g.ids[i] == g.order[k]);
    }
}

/// `id`'s position among the graph's feature ids.
pub open spec fn id_index(ids: Seq<FeatureId>, id: FeatureId) -> int {
    choose|j: int| 0 <= j < ids.len() && ids[j] == id
}

/// The dependencies of feature `id`.
pub open spec fn deps_of(g: GraphView, id: FeatureId) -> Seq<FeatureId> {
    g.deps[id_index(g.ids, id)]
}

/// Distinct ids, an order of distinct features, one dependency and one
/// dependent list per feature.
pub open spec fn graph_wf(g: GraphView) -> bool {
    &&& g.ids.len() == g.deps.len()
    &&& g.ids.len() == g.dependents.len()
    &&& g.ids.no_duplicates()
    &&& g.order.no_duplicates()
    &&& forall|k: int| 0 <= k < g.order.len() ==> g.ids.contains(#[trigger] g.order[k])
}

/// Dependency `d` of the feature at order position `k` is `t`, or is placed
/// earlier and reaches `t` by `tab`.
pub open spec fn dep_reaches(g: GraphView, t: FeatureId, tab: Seq<bool>, k: int, d: FeatureId) -> bool {
    d == t || exists|p: int| 0 <= p < k && g.order[p] == d && #[trigger] tab[p]
}

pub open spec fn reach_step(g: GraphView, t: FeatureId, tab: Seq<bool>, k: int) -> bool {
    let ds = deps_of(g, g.order[k]);
    exists|m: int| 0 <= m < ds.len() && #[trigger] dep_reaches(g, t, tab, k, ds[m])
}

/// For the first `k` features in order, whether each depends on `t`,
/// directly or through features placed before it.
pub open spec fn reach_table(g: GraphView, t: FeatureId, k: nat) -> Seq<bool>
    decreases k,
{
    if k == 0 {
        Seq::empty()
    } else {
        let tab = reach_table(g, t, (k - 1) as nat);
        tab.push(reach_step(g, t, tab, k - 1))
    }
}

/// Feature `c` depends on `t`, directly or through other features.
pub open spec fn depends(g: GraphView, c: FeatureId, t: FeatureId) -> bool {
    exists|k: int|
        0 <= k < g.order.len() && g.order[k] == c && #[trigger] reach_table(
            g,
            t,
            g.order.len(),
        )[k]
}

/// The features among the first `k` in order, other than `t`, that depend on `t`.
pub open spec fn downstream(g: GraphView, t: FeatureId, k: nat) -> Seq<FeatureId>
    decreases k,
{
    if k == 0 {
        Seq::empty()
    } else {
        let prev = downstream(g, t, (k - 1) as nat);
        if g.order[k - 1] != t && reach_table(g, t, g.order.len())[k - 1] {
            prev.push(g.order[k - 1])
        } else {
            prev
        }
    }
}

pub proof fn lemma_reach_table_len(g: GraphView, t: FeatureId, k: nat)
    ensures
        reach_table(g, t, k).len() == k,
    decreases k,
{
    if k > 0 {
        lemma_reach_table_len(g, t, (k - 1) as nat);
    }
}

/// An earlier row of the table stays as it was.
pub proof fn lemma_reach_table_prefix(g: GraphView, t: FeatureId, k: nat, j: nat, p: int)
    requires
        0 <= p < j <= k,
    ensures
        reach_table(g, t, k)[p] == reach_table(g, t, j)[p],
    decreases k - j,
{
    lemma_reach_table_len(g, t, j);
    if j < k {
        lemma_reach_table_prefix(g, t, (k - 1) as nat, j, p);
        lemma_reach_table_len(g, t, (k - 1) as nat);
    }
}

fn position(v: &Vec<FeatureId>, id: FeatureId) -> (r: Option<usize>)
    ensures
        r matches Some(p) ==> p < v@.len() && v@[p as int] == id,
        r is None ==> !v@.contains(id),
{
    let mut i: usize = 0;
    while i < v.len()
        invariant
            i <= v@.len(),
            forall|j: int| 0 <= j < i ==> v@[j] != id,
        decreases v@.len() - i,
    {
        if v[i] == id {
            return Some(i);
        }
        i += 1;
    }
    None
}

impl FeatureGraph {
    #[verifier::type_invariant]
    spec fn well_formed(self) -> bool {
        graph_wf(self@)
    }

    fn deps_index(&self, id: FeatureId) -> (r: Option<usize>)
        ensures
            r matches Some(j) ==> j < self@.ids.len() && j == id_index(self@.ids, id) && self@.ids[j as int] == id,
            r is None ==> !self@.ids.contains(id),
    {
        proof {
            use_type_invariant(self);
        }
        let r = position(&self.ids, id);
        proof {
            if let Some(j) = r {
                let c = id_index(self@.ids, id);
                assert(self@.ids[j as int] == id);
                assert(self@.ids[c] == id);
            }
        }
        r
    }

    /// The features in dependency order.
    pub fn order(&self) -> (o: &[FeatureId])
        ensures
            o@ == self@.order,
    {
        self.order.as_slice()
    }

    /// The dependencies of feature `id`, or `None` if it is not in the graph.
    pub fn dependencies(&self, id: FeatureId) -> (r: Option<&[FeatureId]>)
        ensures
            match r {
                Some(ds) => self@.ids.contains(id) && ds@ == deps_of(self@, id),
                None => !self@.ids.contains(id),
            },
    {
        proof {
            use_type_invariant(self);
        }
        match self.deps_index(id) {
            None => None,
            Some(j) => Some(self.deps[j].as_slice()),
        }
    }

    /// The features that consume `id`, once per use, in list order.
    pub fn dependents(&self, id: FeatureId) -> (r: &[FeatureId])
        ensures
            r@ == (if self@.ids.contains(id) {
                self@.dependents[id_index(self@.ids, id)]
            } else {
                Seq::empty()
            }),
    {
        proof {
            use_type_invariant(self);
        }
        match self.deps_index(id) {
            None => &[],
            Some(j) => self.dependents[j].as_slice(),
        }
    }

    /// For each feature in order, whether it depends on `target`.
    fn reach_flags(&self, target: FeatureId) -> (flags: Vec<bool>)
        ensures
            flags@ == reach_table(self@, target, self@.order.len()),
    {
        proof {
            use_type_invariant(self);
        }
        let g = Ghost(self@);
        let n = self.order.len();
        let mut flags: Vec<bool> = Vec::new();
        let mut k: usize = 0;
        while k < n
            invariant
                k <= n == g@.order.len(),
                g@ == self@,
                graph_wf(g@),
                flags@ == reach_table(g@, target, k as nat),
            decreases n - k,
        {
            proof {
                lemma_reach_table_len(g@, target, k as nat);
                assert(g@.ids.contains(g@.order[k as int]));
            }
            let j = match self.deps_index(self.order[k]) {
                Some(j) => j,
                None => {
                    proof {
                        assert(false);
                    }
                    0
                },
            };
            let ds = &self.deps[j];
            assert(ds@ == deps_of(g@, g@.order[k as int]));
            let ghost tab = flags@;
            let mut found = false;
            let mut m: usize = 0;
            while m < ds.len()
                invariant
                    k < n == g@.order.len(),
                    g@ == self@,
                    graph_wf(g@),
                    tab == flags@,
                    tab.len() == k,
                    m <= ds@.len(),
                    ds@ == deps_of(g@, g@.order[k as int]),
                    found == exists|m2: int| 0 <= m2 < m && #[trigger] dep_reaches(g@, target, tab, k as int, ds@[m2]),
                decreases ds@.len() - m,
            {
                let d = ds[m];
                let mut hit = d == target;
                if !hit {
                    match position(&self.order, d) {
                        Some(p) => {
                            if p < k && flags[p] {
                                hit = true;
                            }
                            proof {
                                assert forall|q: int| 0 <= q < k && g@.order[q] == d implies q == p by {
                                    if q != p {
                                        assert(g@.order[q] == g@.order[p as int]);
                                    }
                                }
                            }
                        },
                        None => {},
                    }
                }
                proof {
                    if hit {
                        assert(dep_reaches(g@, target, tab, k as int, ds@[m as int]));
                    } else {
                        assert(!dep_reaches(g@, target, tab, k as int, ds@[m as int]));
                    }
                }
                if hit {
                    found = true;
                }
                m += 1;
            }
            proof {
                assert(found == reach_step(g@, target, tab, k as int));
            }
            flags.push(found);
            k += 1;
        }
        flags
    }

    /// Whether `candidate` depends on `target`, directly or through other features.
    pub fn depends_on(&self, candidate: FeatureId, target: FeatureId) -> (r: bool)
        ensures
            r == depends(self@, candidate, target),
    {
        proof {
            use_type_invariant(self);
        }
        let flags = self.reach_flags(target);
        proof {
            lemma_reach_table_len(self@, target, self@.order.len());
        }
        match position(&self.order, candidate) {
            None => false,
            Some(p) => {
                proof {
                    assert forall|k: int|
                        0 <= k < self@.order.len() && self@.order[k] == candidate implies k == p by {
                        if k != p {
                            assert(self@.order[k] == self@.order[p as int]);
                        }
                    }
                }
                flags[p]
            },
        }
    }

    /// All downstream features of `id`, in graph order.
    pub fn transitive_dependents(&self, id: FeatureId) -> (v: Vec<FeatureId>)
        ensures
            v@ == downstream(self@, id, self@.order.len()),
    {
        let flags = self.reach_flags(id);
        let n = self.order.len();
        let mut v: Vec<FeatureId> = Vec::new();
        let mut k: usize = 0;
        while k < n
            invariant
                k <= n == self@.order.len(),
                flags@ == reach_table(self@, id, n as nat),
                v@ == downstream(self@, id, k as nat),
            decreases n - k,
        {
            proof {
                lemma_reach_table_len(self@, id, n as nat);
            }
            if self.order[k] != id && flags[k] {
                v.push(self.order[k]);
            }
            k += 1;
        }
        v
    }
}

/// Dependency `m` of the feature at order position `k` is placed before it.
pub open spec fn placed_before(g: GraphView, k: int, m: int) -> bool {
    exists|p: int| 0 <= p < k && g.order[p] == deps_of(g, g.order[k])[m]
}

/// Every dependency of a feature comes before it in the order.
pub open spec fn graph_topo(g: GraphView) -> bool {
    forall|k: int, m: int|
        #![trigger placed_before(g, k, m)]
        0 <= k && k < g.order.len() && 0 <= m && m < deps_of(g, g.order[k]).len() ==> placed_before(g, k, m)
}

proof fn lemma_dependency_placed_before(nodes: Seq<FeatureNode>, g: GraphView, k: int, m: int)
    requires
        graph_problem(nodes) is None,
        schedule(nodes).len() == nodes.len(),
        g == graph_of(nodes),
        0 <= k < g.order.len(),
        0 <= m < deps_of(g, g.order[k]).len(),
    ensures
        placed_before(g, k, m),
{
    lemma_graph_of_wf(nodes);
    law_schedule_respects_dependencies(nodes);
    lemma_problem_free_distinct(nodes);
    let x = g.order[k];
    assert(has_node(nodes, g.order[k]));
    let i = choose|i: int| 0 <= i < nodes.len() && #[trigger] nodes[i].id == x;
    let c = id_index(g.ids, x);
    assert(g.ids[i] == x);
    assert(g.ids[c] == x);
    assert(c == i);
    assert(deps_before(nodes, g.order, k, i));
    let d = nodes[i].link.deps()[m];
    assert(g.order.take(k).contains(d));
    let p = choose|p: int| 0 <= p < g.order.take(k).len() && g.order.take(k)[p] == d;
    assert(g.order[p] == d);
}

#[verifier::spinoff_prover]
proof fn lemma_graph_of_orders_dependencies(nodes: Seq<FeatureNode>, g: GraphView)
    requires
        graph_problem(nodes) is None,
        schedule(nodes).len() == nodes.len(),
        g == graph_of(nodes),
    ensures
        graph_topo(g),
{
    assert forall|k: int, m: int|
        #![trigger placed_before(g, k, m)]
        0 <= k && k < g.order.len() && 0 <= m && m < deps_of(g, g.order[k]).len() implies placed_before(g, k, m) by {
        lemma_dependency_placed_before(nodes, g, k, m);
    }
}

/// The graph of a feature list whose features all get placed has every
/// dependency before its consumer.
pub proof fn law_graph_of_topological(nodes: Seq<FeatureNode>)
    requires
        graph_problem(nodes) is None,
        schedule(nodes).len() == nodes.len(),
    ensures
        graph_wf(graph_of(nodes)),
        graph_topo(graph_of(nodes)),
{
    lemma_graph_of_wf(nodes);
    lemma_graph_of_orders_dependencies(nodes, graph_of(nodes));
}

/// Row `k` of the full table is the step computed from the rows before it.
proof fn lemma_reach_row(g: GraphView, t: FeatureId, k: int)
    requires
        0 <= k < g.order.len(),
    ensures
        reach_table(g, t, g.order.len())[k] == reach_step(g, t, reach_table(g, t, k as nat), k),
        forall|p: int|
            0 <= p < k ==> #[trigger] reach_table(g, t, k as nat)[p] == reach_table(
                g,
                t,
                g.order.len(),
            )[p],
{
    lemma_reach_table_prefix(g, t, g.order.len(), (k + 1) as nat, k);
    lemma_reach_table_len(g, t, k as nat);
    assert forall|p: int| 0 <= p < k implies #[trigger] reach_table(g, t, k as nat)[p]
        == reach_table(g, t, g.order.len())[p] by {
        lemma_reach_table_prefix(g, t, g.order.len(), k as nat, p);
    }
}

/// A feature depends on each of its own dependencies.
pub proof fn law_direct_dependency(g: GraphView, c: FeatureId, t: FeatureId)
    requires
        graph_wf(g),
        g.order.contains(c),
        deps_of(g, c).contains(t),
    ensures
        depends(g, c, t),
{
    let k = choose|k: int| 0 <= k < g.order.len() && g.order[k] == c;
    let m = choose|m: int| 0 <= m < deps_of(g, c).len() && deps_of(g, c)[m] == t;
    lemma_reach_row(g, t, k);
    assert(dep_reaches(g, t, reach_table(g, t, k as nat), k, deps_of(g, g.order[k])[m]));
}

proof fn lemma_reach_transitive(g: GraphView, mid: FeatureId, t: FeatureId, q: int, k: int)
    requires
        graph_wf(g),
        graph_topo(g),
        0 <= q < g.order.len(),
        g.order[q] == mid,
        reach_table(g, t, g.order.len())[q],
        0 <= k < g.order.len(),
        reach_table(g, mid, g.order.len())[k],
    ensures
        reach_table(g, t, g.order.len())[k],
    decreases k,
{
    lemma_reach_row(g, mid, k);
    lemma_reach_row(g, t, k);
    let ds = deps_of(g, g.order[k]);
    let tab_m = reach_table(g, mid, k as nat);
    let tab_t = reach_table(g, t, k as nat);
    let mm = choose|mm: int| 0 <= mm < ds.len() && #[trigger] dep_reaches(g, mid, tab_m, k, ds[mm]);
    let d = ds[mm];
    if d == mid {
        assert(placed_before(g, k, mm));
        let p = choose|p: int| 0 <= p < k && g.order[p] == deps_of(g, g.order[k])[mm];
        if p != q {
            assert(g.order[p] == g.order[q]);
        }
        assert(tab_t[q]);
        assert(dep_reaches(g, t, tab_t, k, ds[mm]));
    } else {
        let p = choose|p: int| 0 <= p < k && g.order[p] == d && #[trigger] tab_m[p];
        lemma_reach_transitive(g, mid, t, q, p);
        assert(tab_t[p]);
        assert(dep_reaches(g, t, tab_t, k, ds[mm]));
    }
}

/// Depending on a feature that depends on `t` is depending on `t`.
pub proof fn law_depends_transitive(g: GraphView, c: FeatureId, mid: FeatureId, t: FeatureId)
    requires
        graph_wf(g),
        graph_topo(g),
        depends(g, c, mid),
        depends(g, mid, t),
    ensures
        depends(g, c, t),
{
    let k = choose|k: int|
        0 <= k < g.order.len() && g.order[k] == c && #[trigger] reach_table(g, mid, g.order.len())[k];
    let q = choose|q: int|
        0 <= q < g.order.len() && g.order[q] == mid && #[trigger] reach_table(g, t, g.order.len())[q];
    lemma_reach_transitive(g, mid, t, q, k);
}

proof fn lemma_independent_schedule(nodes: Seq<FeatureNode>, k: nat)
    requires
        ids_distinct(nodes),
        forall|i: int| 0 <= i < nodes.len() ==> (#[trigger] nodes[i].link.deps()).len() == 0,
        k <= nodes.len(),
    ensures
        schedule_from(nodes, node_ids(nodes).take(k as int), (nodes.len() - k) as nat) == node_ids(
            nodes,
        ),
    decreases nodes.len() - k,
{
    let ids = node_ids(nodes);
    let placed = ids.take(k as int);
    if k == nodes.len() {
        assert(placed =~= ids);
    } else {
        assert forall|j: int| 0 <= j < k implies !#[trigger] ready(nodes, placed, j) by {
            assert(placed[j] == nodes[j].id);
        }
        assert(ready(nodes, placed, k as int)) by {
            if placed.contains(nodes[k as int].id) {
                let j = choose|j: int| 0 <= j < placed.len() && placed[j] == nodes[k as int].id;
                assert(nodes[j].id == nodes[k as int].id);
            }
        }
        assert forall|j: int| 0 <= j <= k implies ready_from(nodes, placed, j) == Some(k as int) by {
            lemma_ready_from_skip(nodes, placed, j, k as int);
        }
        assert(ids.take((k + 1) as int) =~= placed.push(nodes[k as int].id));
        lemma_independent_schedule(nodes, k + 1);
    }
}

proof fn lemma_ready_from_skip(nodes: Seq<FeatureNode>, placed: Seq<FeatureId>, j: int, k: int)
    requires
        0 <= j <= k < nodes.len(),
        ready(nodes, placed, k),
        forall|i: int| 0 <= i < k ==> !#[trigger] ready(nodes, placed, i),
    ensures
        ready_from(nodes, placed, j) == Some(k),
    decreases k - j,
{
    if j < k {
        lemma_ready_from_skip(nodes, placed, j + 1, k);
    }
}

/// Features without dependencies keep the list order.
pub proof fn law_independent_features_keep_list_order(nodes: Seq<FeatureNode>)
    requires
        ids_distinct(nodes),
        forall|i: int| 0 <= i < nodes.len() ==> (#[trigger] nodes[i].link.deps()).len() == 0,
    ensures
        schedule(nodes) == node_ids(nodes),
{
    assert(node_ids(nodes).take(0) =~= Seq::<FeatureId>::empty());
    lemma_independent_schedule(nodes, 0);
}


/// Every dependency of every feature names a feature listed before it.
pub open spec fn listed_in_dependency_order(nodes: Seq<FeatureNode>) -> bool {
    forall|i: int, m: int|
        0 <= i < nodes.len() && 0 <= m < nodes[i].link.deps().len() ==> exists|j: int|
            0 <= j < i && #[trigger] nodes[j].id == #[trigger] nodes[i].link.deps()[m]
}

proof fn lemma_ordered_schedule(nodes: Seq<FeatureNode>, k: nat)
    requires
        ids_distinct(nodes),
        listed_in_dependency_order(nodes),
        k <= nodes.len(),
    ensures
        schedule_from(nodes, node_ids(nodes).take(k as int), (nodes.len() - k) as nat) == node_ids(
            nodes,
        ),
    decreases nodes.len() - k,
{
    let ids = node_ids(nodes);
    let placed = ids.take(k as int);
    if k == nodes.len() {
        assert(placed =~= ids);
    } else {
        assert forall|j: int| 0 <= j < k implies !#[trigger] ready(nodes, placed, j) by {
            assert(placed[j] == nodes[j].id);
        }
        assert(ready(nodes, placed, k as int)) by {
            if placed.contains(nodes[k as int].id) {
                let j = choose|j: int| 0 <= j < placed.len() && placed[j] == nodes[k as int].id;
                assert(nodes[j].id == nodes[k as int].id);
            }
            assert forall|m: int| 0 <= m < nodes[k as int].link.deps().len() implies placed.contains(
                #[trigger] nodes[k as int].link.deps()[m],
            ) by {
                let j = choose|j: int|
                    0 <= j < k && #[trigger] nodes[j].id == #[trigger] nodes[k as int].link.deps()[m];
                assert(placed[j] == nodes[j].id);
            }
        }
        assert forall|j: int| 0 <= j <= k implies ready_from(nodes, placed, j) == Some(k as int) by {
            lemma_ready_from_skip(nodes, placed, j, k as int);
        }
        assert(ids.take((k + 1) as int) =~= placed.push(nodes[k as int].id));
        lemma_ordered_schedule(nodes, k + 1);
    }
}

/// A feature list already in dependency order comes back unchanged: the
/// order is the list's ids as listed.
pub proof fn law_ordered_list_keeps_its_order(nodes: Seq<FeatureNode>)
    requires
        ids_distinct(nodes),
        listed_in_dependency_order(nodes),
    ensures
        schedule(nodes) == node_ids(nodes),
{
    assert(node_ids(nodes).take(0) =~= Seq::<FeatureId>::empty());
    lemma_ordered_schedule(nodes, 0);
}

/// A feature `x` is listed among the dependents of `y` exactly as often as
/// `y` occurs among the dependencies of `x`, summed over the features with
/// id `x`; so `x` depends on `y` exactly when `x` is a dependent of `y`.
pub proof fn law_dependents_mirror_dependencies(nodes: Seq<FeatureNode>, x: FeatureId, y: FeatureId)
    ensures
        dependents_of(nodes, y).contains(x) <==> exists|i: int|
            0 <= i < nodes.len() && nodes[i].id == x && #[trigger] nodes[i].link.deps().contains(y),
    decreases nodes.len(),
{
    if nodes.len() > 0 {
        let rest = nodes.drop_last();
        law_dependents_mirror_dependencies(rest, x, y);
        let last = nodes.last();
        let r = repeat(last.id, occurrences(last.link.deps(), y));
        let d = dependents_of(rest, y);
        lemma_occurrences_contains(last.link.deps(), y);
        assert(dependents_of(nodes, y) == d + r);
        if (d + r).contains(x) {
            let q = choose|q: int| 0 <= q < (d + r).len() && (d + r)[q] == x;
            if q < d.len() {
                assert(d[q] == x);
                let i = choose|i: int| 0 <= i < rest.len() && rest[i].id == x && #[trigger] rest[i].link.deps().contains(y);
                assert(nodes[i] == rest[i]);
            } else {
                assert(r[q - d.len()] == last.id);
                assert(nodes[nodes.len() - 1] == last);
            }
        }
        if exists|i: int| 0 <= i < nodes.len() && nodes[i].id == x && #[trigger] nodes[i].link.deps().contains(y) {
            let i = choose|i: int| 0 <= i < nodes.len() && nodes[i].id == x && #[trigger] nodes[i].link.deps().contains(y);
            if i < rest.len() {
                assert(rest[i] == nodes[i]);
                let q = choose|q: int| 0 <= q < d.len() && d[q] == x;
                assert((d + r)[q] == x);
            } else {
                assert(r[0] == x);
                assert((d + r)[d.len() as int] == x);
            }
        }
    }
}

proof fn lemma_occurrences_contains(s: Seq<FeatureId>, d: FeatureId)
    ensures
        (occurrences(s, d) > 0) <==> s.contains(d),
    decreases s.len(),
{
    if s.len() > 0 {
        lemma_occurrences_contains(s.drop_last(), d);
        if s.drop_last().contains(d) {
            let q = choose|q: int| 0 <= q < s.drop_last().len() && s.drop_last()[q] == d;
            assert(s[q] == d);
        }
        if s.contains(d) && s.last() != d {
            let q = choose|q: int| 0 <= q < s.len() && s[q] == d;
            assert(s.drop_last()[q] == d);
        }
    }
}

} // verus!
