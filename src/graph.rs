//! The topology of one robot's factor graph: an arena of variables and
//! factors addressed by index, the edges between them, and the inter-robot
//! factors kept in step with which robots are within communication range.

use vstd::prelude::*;

use crate::factor::{FactorKind, RemoteVariable};
use crate::message::{FactorGraphId, RemoveConnectionToError};

verus! {

/// Index of a variable in its graph's arena.
#[derive(Debug, Clone, Copy, PartialEq, Eq, Structural)]
pub struct VariableIndex(pub usize);

/// Index of a factor in its graph's arena.
#[derive(Debug, Clone, Copy, PartialEq, Eq, Structural)]
pub struct FactorIndex(pub usize);

/// A factor touches a variable.
#[derive(Debug, Clone, Copy, PartialEq, Eq, Structural)]
pub struct Edge {
    pub factor: usize,
    pub variable: usize,
}

/// How many variables and factors a graph holds.
#[derive(Debug, Clone, Copy, PartialEq, Eq, Structural)]
pub struct NodeCount {
    pub variables: usize,
    pub factors: usize,
}

/// What a graph operation was refused for.
#[derive(Debug, Clone, Copy, PartialEq, Eq, Structural)]
pub enum GraphError {
    /// No live variable has this index.
    UnknownVariable,
    /// No live factor has this index.
    UnknownFactor,
}

/// The state of a graph as plain mathematical values.
pub struct FactorGraphView {
    pub id: FactorGraphId,
    /// Whether each variable slot holds a live variable.
    pub variables: Seq<bool>,
    /// Each factor slot: the kind of its live factor, or `None` once removed.
    pub factors: Seq<Option<FactorKind>>,
    pub edges: Seq<Edge>,
    pub messages_sent: nat,
    /// Robots currently within communication range.
    pub within_range: Seq<usize>,
    /// Robots this graph currently holds inter-robot factors with.
    pub connected_with: Seq<usize>,
}

/// The indices of the `true` entries of `s`, in increasing order.
pub open spec fn live_indices(s: Seq<bool>) -> Seq<usize>
    decreases s.len(),
{
    if s.len() == 0 {
        Seq::empty()
    } else {
        let before = live_indices(s.drop_last());
        if s.last() {
            before.push((s.len() - 1) as usize)
        } else {
            before
        }
    }
}

/// The indices of the `true` entries of `s` other than index 0, in
/// increasing order: the live variables of a path past its current state.
pub open spec fn horizon_variables(s: Seq<bool>) -> Seq<usize>
    decreases s.len(),
{
    if s.len() <= 1 {
        Seq::empty()
    } else {
        let before = horizon_variables(s.drop_last());
        if s.last() {
            before.push((s.len() - 1) as usize)
        } else {
            before
        }
    }
}

/// The factor slots that inter-robot factor creation with `robot` appends:
/// one for each variable in `vars`, in order.
pub open spec fn interrobot_row(robot: usize, vars: Seq<usize>) -> Seq<Option<FactorKind>> {
    vars.map_values(|v: usize| Some(interrobot_kind(robot, v)))
}

/// The edges that go with `interrobot_row`: the factor in slot `base + k`
/// touches variable `vars[k]`.
pub open spec fn interrobot_edges(base: int, vars: Seq<usize>) -> Seq<Edge> {
    Seq::new(vars.len(), |k: int| Edge { factor: (base + k) as usize, variable: vars[k] })
}

/// The indices of the `Some` entries of `s`, in increasing order.
pub open spec fn live_factor_indices(s: Seq<Option<FactorKind>>) -> Seq<usize>
    decreases s.len(),
{
    if s.len() == 0 {
        Seq::empty()
    } else {
        let before = live_factor_indices(s.drop_last());
        if s.last() is Some {
            before.push((s.len() - 1) as usize)
        } else {
            before
        }
    }
}

/// Whether an edge touches variable `v`.
pub open spec fn edge_on_variable(v: usize) -> spec_fn(Edge) -> bool {
    |e: Edge| e.variable == v
}

/// Whether an edge is any other than the one between `f` and `v`.
pub open spec fn edge_other_than(f: usize, v: usize) -> spec_fn(Edge) -> bool {
    |e: Edge| e != Edge { factor: f, variable: v }
}

/// Whether an edge does not touch variable `v`.
pub open spec fn edge_not_on_variable(v: usize) -> spec_fn(Edge) -> bool {
    |e: Edge| e.variable != v
}

/// Whether an edge does not belong to factor `f`.
pub open spec fn edge_not_on_factor(f: usize) -> spec_fn(Edge) -> bool {
    |e: Edge| e.factor != f
}

/// Whether `k` is an inter-robot factor with robot `robot`.
pub open spec fn links_robot(k: Option<FactorKind>, robot: usize) -> bool {
    match k {
        Some(FactorKind::InterRobot { remote }) => remote.robot == robot,
        _ => false,
    }
}

/// Whether `k` is an inter-robot factor with one of `robots`.
pub open spec fn links_any(k: Option<FactorKind>, robots: Seq<usize>) -> bool {
    match k {
        Some(FactorKind::InterRobot { remote }) => robots.contains(remote.robot),
        _ => false,
    }
}

/// The inter-robot factor between this robot's variable `v` and the variable
/// of the same index of robot `robot`.
pub open spec fn interrobot_kind(robot: usize, v: usize) -> FactorKind {
    FactorKind::InterRobot { remote: RemoteVariable { robot, variable_index: v } }
}

/// The index of the remote variable of an inter-robot factor of kind `k`.
pub open spec fn remote_index(k: Option<FactorKind>) -> usize {
    match k {
        Some(FactorKind::InterRobot { remote }) => remote.variable_index,
        _ => 0,
    }
}

/// The robot of an inter-robot factor of kind `k`.
pub open spec fn remote_robot(k: Option<FactorKind>) -> usize {
    match k {
        Some(FactorKind::InterRobot { remote }) => remote.robot,
        _ => 0,
    }
}

/// Whether `x` is among `ids`.
fn contains_id(ids: &Vec<usize>, x: usize) -> (r: bool)
    ensures
        r == ids@.contains(x),
{
    let mut i: usize = 0;
    while i < ids.len()
        invariant
            0 <= i <= ids@.len(),
            forall|k: int| 0 <= k < i ==> ids@[k] != x,
        decreases ids@.len() - i,
    {
        if ids[i] == x {
            assert(ids@[i as int] == x);
            return true;
        }
        i = i + 1;
    }
    false
}

proof fn lemma_horizon_variables(s: Seq<bool>)
    requires
        s.len() <= usize::MAX,
    ensures
        forall|k: int|
            0 <= k < horizon_variables(s).len() ==> 1 <= #[trigger] horizon_variables(s)[k] < s.len(),
        horizon_variables(s).no_duplicates(),
    decreases s.len(),
{
    if s.len() > 1 {
        let d = s.drop_last();
        lemma_horizon_variables(d);
        let hd = horizon_variables(d);
        if s.last() {
            let h = hd.push((s.len() - 1) as usize);
            assert(horizon_variables(s) == h);
            assert forall|a: int, b: int| 0 <= a < h.len() && 0 <= b < h.len() && a != b implies h[a]
                != h[b] by {
                if a < hd.len() && b < hd.len() {
                    assert(hd[a] != hd[b]);
                } else if a < hd.len() {
                    assert(hd[a] < d.len());
                } else {
                    assert(hd[b] < d.len());
                }
            }
            assert forall|k: int| 0 <= k < h.len() implies 1 <= #[trigger] h[k] < s.len() by {
                if k < hd.len() {
                    assert(hd[k] < d.len());
                }
            }
        }
    }
}

proof fn lemma_filter_contains_iff(s: Seq<Edge>, p: spec_fn(Edge) -> bool, e: Edge)
    ensures
        s.filter(p).contains(e) <==> s.contains(e) && p(e),
{
    if s.filter(p).contains(e) {
        s.lemma_filter_contains_rev(p, e);
        let i = choose|i: int| 0 <= i < s.filter(p).len() && s.filter(p)[i] == e;
        s.lemma_filter_pred(p, i);
    }
    if s.contains(e) && p(e) {
        let i = choose|i: int| 0 <= i < s.len() && s[i] == e;
        s.lemma_filter_contains(p, i);
    }
}

proof fn lemma_filter_no_duplicates(s: Seq<Edge>, p: spec_fn(Edge) -> bool)
    requires
        s.no_duplicates(),
    ensures
        s.filter(p).no_duplicates(),
    decreases s.len(),
{
    reveal(Seq::filter);
    if s.len() > 0 {
        let d = s.drop_last();
        let x = s.last();
        assert forall|i: int, j: int| 0 <= i < d.len() && 0 <= j < d.len() && i != j implies d[i]
            != d[j] by {
            assert(s[i] != s[j]);
        }
        lemma_filter_no_duplicates(d, p);
        if p(x) {
            let fd = d.filter(p);
            if fd.contains(x) {
                d.lemma_filter_contains_rev(p, x);
                let k = choose|k: int| 0 <= k < d.len() && d[k] == x;
                assert(s[k] == s[s.len() - 1]);
            }
            assert(s.filter(p) == fd.push(x));
            assert forall|i: int, j: int|
                0 <= i < fd.len() + 1 && 0 <= j < fd.len() + 1 && i != j implies fd.push(x)[i]
                != fd.push(x)[j] by {
                if i < fd.len() && j < fd.len() {
                } else if i < fd.len() {
                    assert(fd.contains(fd[i]));
                } else {
                    assert(fd.contains(fd[j]));
                }
            }
        }
    }
}

impl FactorGraphView {
    /// Variable `v` is live.
    pub open spec fn has_variable(self, v: usize) -> bool {
        v < self.variables.len() && self.variables[v as int]
    }

    /// Factor `f` is live.
    pub open spec fn has_factor(self, f: usize) -> bool {
        f < self.factors.len() && self.factors[f as int] is Some
    }

    /// Edge `e` joins a live factor to a live variable.
    pub open spec fn edge_ok(self, e: Edge) -> bool {
        self.has_factor(e.factor) && self.has_variable(e.variable)
    }

    /// Every edge joins a live factor to a live variable, and no edge is
    /// listed twice.
    pub open spec fn edges_valid(self) -> bool {
        &&& forall|i: int|
            0 <= i < self.edges.len() ==> self.edge_ok(#[trigger] self.edges[i])
        &&& self.edges.no_duplicates()
    }

    /// Factor `f` touches variable `v`.
    pub open spec fn has_edge(self, f: usize, v: usize) -> bool {
        self.edges.contains(Edge { factor: f, variable: v })
    }

    /// The graph after removing live variable `v`: its slot is emptied and
    /// every edge on it is gone.
    pub open spec fn without_variable(self, v: usize) -> FactorGraphView {
        FactorGraphView {
            variables: self.variables.update(v as int, false),
            edges: self.edges.filter(edge_not_on_variable(v)),
            ..self
        }
    }

    /// The graph after removing live factor `f`: its slot is emptied and
    /// every edge of it is gone.
    pub open spec fn without_factor(self, f: usize) -> FactorGraphView {
        FactorGraphView {
            factors: self.factors.update(f as int, None),
            edges: self.edges.filter(edge_not_on_factor(f)),
            ..self
        }
    }

    /// Robot `r` is connected with but no longer within range.
    pub open spec fn stale_robot(self, r: usize) -> bool {
        self.connected_with.contains(r) && !self.within_range.contains(r)
    }

    /// Robot `r` is within range but not yet connected with.
    pub open spec fn fresh_robot(self, r: usize) -> bool {
        self.within_range.contains(r) && !self.connected_with.contains(r)
    }

    /// The robots connected with are exactly those within range.
    pub open spec fn in_sync(self) -> bool {
        forall|r: usize| #[trigger] self.connected_with.contains(r) <==> self.within_range.contains(r)
    }

    /// Whether maintenance deletes a factor of kind `k`: an inter-robot
    /// factor with a robot that left range.
    pub open spec fn deletes(self, k: Option<FactorKind>) -> bool {
        match k {
            Some(FactorKind::InterRobot { remote }) => self.stale_robot(remote.robot),
            _ => false,
        }
    }

    /// Factor slot `f` holds an inter-robot factor with robot `robot` on a
    /// variable `v >= 1` that was live in `before`, with its edge to `v`.
    pub open spec fn is_new_interrobot(self, before: FactorGraphView, robot: usize, f: int) -> bool {
        let v = remote_index(self.factors[f]);
        &&& self.factors[f] == Some(interrobot_kind(robot, v))
        &&& v >= 1
        &&& before.has_variable(v)
        &&& self.has_edge(f as usize, v)
    }

    /// Factor slot `f` holds an inter-robot factor, as `is_new_interrobot`
    /// says, with a robot that was within range but not connected with in
    /// `before`.
    pub open spec fn is_new_for_fresh(self, before: FactorGraphView, f: int) -> bool {
        &&& before.fresh_robot(remote_robot(self.factors[f]))
        &&& self.is_new_interrobot(before, remote_robot(self.factors[f]), f)
    }

    /// Every live variable `v >= 1` of `before` has an inter-robot factor
    /// with robot `robot`, among the slots that `before` did not have.
    pub open spec fn covers_robot(self, before: FactorGraphView, robot: usize) -> bool {
        forall|v: usize|
            v >= 1 && #[trigger] before.has_variable(v) ==> exists|f: int|
                before.factors.len() <= f < self.factors.len() && #[trigger] self.factors[f] == Some(
                    interrobot_kind(robot, v),
                ) && self.has_edge(f as usize, v)
    }

    /// `after` is this graph after one round of inter-robot factor
    /// maintenance: the inter-robot factors with robots that left range are
    /// gone with their edges, every robot that came into range has an
    /// inter-robot factor on each live variable but the current state, the
    /// robots connected with are those within range, and nothing else moved.
    pub open spec fn maintained_as(self, after: FactorGraphView) -> bool {
        &&& after.wf()
        &&& after.id == self.id
        &&& after.variables == self.variables
        &&& after.messages_sent == self.messages_sent
        &&& after.within_range == self.within_range
        &&& after.in_sync()
        &&& self.in_sync() ==> after == self
        &&& after.factors.len() >= self.factors.len()
        &&& forall|f: int|
            0 <= f < self.factors.len() ==> #[trigger] after.factors[f] == if self.deletes(
                self.factors[f],
            ) {
                None
            } else {
                self.factors[f]
            }
        &&& forall|f: int|
            self.factors.len() <= f < after.factors.len() ==> #[trigger] after.is_new_for_fresh(self, f)
        &&& forall|r: usize| #[trigger] self.fresh_robot(r) ==> after.covers_robot(self, r)
        &&& forall|f1: int, f2: int|
            self.factors.len() <= f1 < after.factors.len() && self.factors.len() <= f2
                < after.factors.len() && f1 != f2 ==> #[trigger] after.factors[f1]
                != #[trigger] after.factors[f2]
        &&& forall|f: usize, v: usize|
            f < self.factors.len() ==> (#[trigger] after.has_edge(f, v) <==> self.has_edge(f, v)
                && !self.deletes(self.factors[f as int]))
    }

    /// The graph is well formed.
    pub open spec fn wf(self) -> bool {
        &&& self.edges_valid()
        &&& self.within_range.no_duplicates()
    }
}

/// The inter-robot factor between this robot's variable `v` and the
/// variable of the same index of robot `robot`.
fn interrobot_kind_exec(robot: usize, v: usize) -> (r: FactorKind)
    ensures
        r == interrobot_kind(robot, v),
{
    FactorKind::InterRobot { remote: RemoteVariable { robot, variable_index: v } }
}

/// The factor graph of one robot.
pub struct FactorGraph {
    id: FactorGraphId,
    variables: Vec<bool>,
    factors: Vec<Option<FactorKind>>,
    edges: Vec<Edge>,
    messages_sent: usize,
    within_range: Vec<usize>,
    connected_with: Vec<usize>,
}

impl View for FactorGraph {
    type V = FactorGraphView;

    closed spec fn view(&self) -> FactorGraphView {
        FactorGraphView {
            id: self.id,
            variables: self.variables@,
            factors: self.factors@,
            edges: self.edges@,
            messages_sent: self.messages_sent as nat,
            within_range: self.within_range@,
            connected_with: self.connected_with@,
        }
    }
}

impl FactorGraph {
    /// An empty graph owned by robot `id`.
    pub fn new(id: FactorGraphId) -> (r: Self)
        ensures
            r@.wf(),
            r@.id == id,
            r@.variables.len() == 0,
            r@.factors.len() == 0,
            r@.edges.len() == 0,
            r@.messages_sent == 0,
            r@.within_range.len() == 0,
            r@.connected_with.len() == 0,
    {
        FactorGraph {
            id,
            variables: Vec::new(),
            factors: Vec::new(),
            edges: Vec::new(),
            messages_sent: 0,
            within_range: Vec::new(),
            connected_with: Vec::new(),
        }
    }

    /// The robot that owns this graph.
    pub fn id(&self) -> (r: FactorGraphId)
        ensures
            r == self@.id,
    {
        self.id
    }

    /// Add a variable; it gets the next free index.
    pub fn add_variable(&mut self) -> (r: VariableIndex)
        requires
            old(self)@.wf(),
        ensures
            final(self)@.wf(),
            r.0 == old(self)@.variables.len(),
            final(self)@ == (FactorGraphView { variables: old(self)@.variables.push(true), ..old(self)@ }),
    {
        let r = VariableIndex(self.variables.len());
        self.variables.push(true);
        proof {
            assert forall|i: int| 0 <= i < self@.edges.len() implies self@.edge_ok(
                #[trigger] self@.edges[i],
            ) by {
                assert(self@.edges[i] == old(self)@.edges[i]);
                assert(old(self)@.edge_ok(old(self)@.edges[i]));
            }
        }
        r
    }

    /// Add a factor of kind `kind` on variable `variable`; it gets the next
    /// free index. For an inter-robot factor the second variable is the
    /// remote one named in `kind`. Fails when `variable` is not live.
    pub fn add_factor(&mut self, kind: FactorKind, variable: VariableIndex) -> (r: Result<
        FactorIndex,
        GraphError,
    >)
        requires
            old(self)@.wf(),
        ensures
            final(self)@.wf(),
            r is Err <==> !old(self)@.has_variable(variable.0),
            r is Err ==> r == Err::<FactorIndex, GraphError>(GraphError::UnknownVariable)
                && final(self)@ == old(self)@,
            r matches Ok(f) ==> {
                &&& f.0 == old(self)@.factors.len()
                &&& final(self)@ == (FactorGraphView {
                    factors: old(self)@.factors.push(Some(kind)),
                    edges: old(self)@.edges.push(Edge { factor: f.0, variable: variable.0 }),
                    ..old(self)@
                })
            },
    {
        if variable.0 >= self.variables.len() || !self.variables[variable.0] {
            return Err(GraphError::UnknownVariable);
        }
        let f = self.factors.len();
        self.factors.push(Some(kind));
        let ghost before = self.edges@;
        self.edges.push(Edge { factor: f, variable: variable.0 });
        proof {
            assert forall|i: int| 0 <= i < self@.edges.len() implies self@.edge_ok(
                #[trigger] self@.edges[i],
            ) by {
                if i < before.len() {
                    assert(old(self)@.edge_ok(before[i]));
                }
            }
            assert forall|i: int, j: int|
                0 <= i < self@.edges.len() && 0 <= j < self@.edges.len() && i != j implies self@.edges[i]
                != self@.edges[j] by {
                if i < before.len() && j < before.len() {
                } else if i < before.len() {
                    assert(old(self)@.edge_ok(before[i]));
                } else {
                    assert(old(self)@.edge_ok(before[j]));
                }
            }
        }
        Ok(FactorIndex(f))
    }

    /// Keep only the edges that `keep` holds of, in order.
    fn retain_edges(&mut self, Ghost(keep): Ghost<spec_fn(Edge) -> bool>, by_factor: bool, index: usize)
        requires
            old(self)@.edges.no_duplicates(),
            forall|e: Edge| #[trigger] keep(e) == if by_factor {
                e.factor != index
            } else {
                e.variable != index
            },
        ensures
            final(self)@ == (FactorGraphView { edges: old(self)@.edges.filter(keep), ..old(self)@ }),
            final(self)@.edges.no_duplicates(),
            forall|k: int|
                0 <= k < final(self)@.edges.len() ==> old(self)@.edges.contains(
                    #[trigger] final(self)@.edges[k],
                ) && keep(final(self)@.edges[k]),
    {
        let ghost orig = self.edges@;
        let mut kept: Vec<Edge> = Vec::new();
        let mut i: usize = 0;
        while i < self.edges.len()
            invariant
                0 <= i <= orig.len(),
                self.edges@ == orig,
                orig.no_duplicates(),
                forall|e: Edge| #[trigger] keep(e) == if by_factor {
                    e.factor != index
                } else {
                    e.variable != index
                },
                kept@ == orig.take(i as int).filter(keep),
                kept@.no_duplicates(),
                forall|k: int|
                    0 <= k < kept@.len() ==> exists|j: int|
                        0 <= j < i && orig[j] == #[trigger] kept@[k],
                forall|k: int| 0 <= k < kept@.len() ==> keep(#[trigger] kept@[k]),
            decreases orig.len() - i,
        {
            let e = self.edges[i];
            proof {
                assert(orig.take(i + 1) =~= orig.take(i as int).push(e));
                orig.take(i as int).lemma_filter_push(e, keep);
            }
            let skip = if by_factor {
                e.factor == index
            } else {
                e.variable == index
            };
            if !skip {
                proof {
                    assert forall|k: int| 0 <= k < kept@.len() implies #[trigger] kept@[k] != e by {
                        let j = choose|j: int| 0 <= j < i && orig[j] == #[trigger] kept@[k];
                        assert(orig[j] != orig[i as int]);
                    }
                }
                let ghost before = kept@;
                kept.push(e);
                proof {
                    assert forall|k: int| 0 <= k < kept@.len() implies exists|j: int|
                        0 <= j < i + 1 && orig[j] == #[trigger] kept@[k] by {
                        if k == before.len() {
                            assert(orig[i as int] == kept@[k]);
                        } else {
                            assert(kept@[k] == before[k]);
                        }
                    }
                    assert forall|a: int, b: int|
                        0 <= a < kept@.len() && 0 <= b < kept@.len() && a != b implies kept@[a]
                        != kept@[b] by {
                        if a < before.len() && b < before.len() {
                            assert(before[a] != before[b]);
                        }
                    }
                }
            }
            i = i + 1;
        }
        proof {
            assert(orig.take(i as int) =~= orig);
            assert forall|k: int| 0 <= k < kept@.len() implies orig.contains(#[trigger] kept@[k]) by {
                let j = choose|j: int| 0 <= j < i && orig[j] == #[trigger] kept@[k];
            }
        }
        self.edges = kept;
    }

    /// Remove variable `variable` and every edge on it. Fails, and changes
    /// nothing, when it is not live.
    pub fn remove_variable(&mut self, variable: VariableIndex) -> (r: Result<(), GraphError>)
        requires
            old(self)@.wf(),
        ensures
            final(self)@.wf(),
            r is Err <==> !old(self)@.has_variable(variable.0),
            r is Err ==> r == Err::<(), GraphError>(GraphError::UnknownVariable) && final(self)@
                == old(self)@,
            r is Ok ==> final(self)@ == old(self)@.without_variable(variable.0),
            forall|f: usize| !(#[trigger] final(self)@.has_edge(f, variable.0)),
    {
        let v = variable.0;
        if v >= self.variables.len() || !self.variables[v] {
            proof {
                assert forall|f: usize| !(#[trigger] self@.has_edge(f, v)) by {
                    if self@.has_edge(f, v) {
                        let k = choose|k: int|
                            0 <= k < self@.edges.len() && self@.edges[k] == Edge { factor: f, variable: v };
                        assert(self@.edge_ok(self@.edges[k]));
                    }
                }
            }
            return Err(GraphError::UnknownVariable);
        }
        self.variables.set(v, false);
        self.retain_edges(Ghost(edge_not_on_variable(v)), false, v);
        proof {
            assert forall|i: int| 0 <= i < self@.edges.len() implies self@.edge_ok(
                #[trigger] self@.edges[i],
            ) by {
                let e = self@.edges[i];
                let k = choose|k: int| 0 <= k < old(self)@.edges.len() && old(self)@.edges[k] == e;
                assert(old(self)@.edge_ok(old(self)@.edges[k]));
            }
            assert forall|f: usize| !(#[trigger] self@.has_edge(f, v)) by {
                if self@.has_edge(f, v) {
                    let k = choose|k: int|
                        0 <= k < self@.edges.len() && self@.edges[k] == Edge { factor: f, variable: v };
                    assert(edge_not_on_variable(v)(self@.edges[k]));
                }
            }
        }
        Ok(())
    }

    /// Remove factor `factor` and every edge of it. Fails, and changes
    /// nothing, when it is not live.
    pub fn remove_factor(&mut self, factor: FactorIndex) -> (r: Result<(), GraphError>)
        requires
            old(self)@.wf(),
        ensures
            final(self)@.wf(),
            r is Err <==> !old(self)@.has_factor(factor.0),
            r is Err ==> r == Err::<(), GraphError>(GraphError::UnknownFactor) && final(self)@
                == old(self)@,
            r is Ok ==> final(self)@ == old(self)@.without_factor(factor.0),
    {
        let f = factor.0;
        if f >= self.factors.len() || self.factors[f].is_none() {
            return Err(GraphError::UnknownFactor);
        }
        self.factors.set(f, None);
        self.retain_edges(Ghost(edge_not_on_factor(f)), true, f);
        proof {
            assert forall|i: int| 0 <= i < self@.edges.len() implies self@.edge_ok(
                #[trigger] self@.edges[i],
            ) by {
                let e = self@.edges[i];
                let k = choose|k: int| 0 <= k < old(self)@.edges.len() && old(self)@.edges[k] == e;
                assert(old(self)@.edge_ok(old(self)@.edges[k]));
            }
        }
        Ok(())
    }

    /// Whether factor `factor` touches variable `variable`.
    pub fn has_edge(&self, factor: FactorIndex, variable: VariableIndex) -> (r: bool)
        ensures
            r == self@.has_edge(factor.0, variable.0),
    {
        let target = Edge { factor: factor.0, variable: variable.0 };
        let mut i: usize = 0;
        while i < self.edges.len()
            invariant
                0 <= i <= self@.edges.len(),
                target == (Edge { factor: factor.0, variable: variable.0 }),
                forall|k: int| 0 <= k < i ==> self@.edges[k] != target,
            decreases self@.edges.len() - i,
        {
            if self.edges[i] == target {
                assert(self@.edges[i as int] == target);
                assert(self@.edges.contains(target));
                return true;
            }
            i = i + 1;
        }
        false
    }

    /// The live variables, in index order.
    pub fn variables(&self) -> (r: Vec<VariableIndex>)
        ensures
            r@.map_values(|v: VariableIndex| v.0) == live_indices(self@.variables),
    {
        let mut r: Vec<VariableIndex> = Vec::new();
        let mut i: usize = 0;
        while i < self.variables.len()
            invariant
                0 <= i <= self@.variables.len(),
                r@.map_values(|v: VariableIndex| v.0) == live_indices(self@.variables.take(i as int)),
            decreases self@.variables.len() - i,
        {
            proof {
                assert(self@.variables.take(i + 1).drop_last() =~= self@.variables.take(i as int));
            }
            if self.variables[i] {
                r.push(VariableIndex(i));
            }
            i = i + 1;
            proof {
                assert(r@.map_values(|v: VariableIndex| v.0) =~= live_indices(self@.variables.take(i as int)));
            }
        }
        proof {
            assert(self@.variables.take(i as int) =~= self@.variables);
        }
        r
    }

    /// The `n`-th live variable in index order, if there are more than `n`.
    pub fn nth_variable(&self, n: usize) -> (r: Option<VariableIndex>)
        ensures
            r is None <==> n >= live_indices(self@.variables).len(),
            r matches Some(v) ==> v.0 == live_indices(self@.variables)[n as int],
    {
        let vs = self.variables();
        if n < vs.len() {
            proof {
                assert(vs@.map_values(|v: VariableIndex| v.0)[n as int] == vs@[n as int].0);
            }
            Some(vs[n])
        } else {
            None
        }
    }

    /// How many live variables and live factors the graph holds.
    pub fn node_count(&self) -> (r: NodeCount)
        ensures
            r.variables == live_indices(self@.variables).len(),
            r.factors == live_factor_indices(self@.factors).len(),
    {
        let mut variables: usize = 0;
        let mut i: usize = 0;
        while i < self.variables.len()
            invariant
                0 <= i <= self@.variables.len(),
                variables == live_indices(self@.variables.take(i as int)).len(),
                variables <= i,
            decreases self@.variables.len() - i,
        {
            proof {
                assert(self@.variables.take(i + 1).drop_last() =~= self@.variables.take(i as int));
            }
            if self.variables[i] {
                variables = variables + 1;
            }
            i = i + 1;
        }
        proof {
            assert(self@.variables.take(i as int) =~= self@.variables);
        }
        let mut factors: usize = 0;
        let mut j: usize = 0;
        while j < self.factors.len()
            invariant
                0 <= j <= self@.factors.len(),
                factors == live_factor_indices(self@.factors.take(j as int)).len(),
                factors <= j,
            decreases self@.factors.len() - j,
        {
            proof {
                assert(self@.factors.take(j + 1).drop_last() =~= self@.factors.take(j as int));
            }
            if self.factors[j].is_some() {
                factors = factors + 1;
            }
            j = j + 1;
        }
        proof {
            assert(self@.factors.take(j as int) =~= self@.factors);
        }
        NodeCount { variables, factors }
    }

    /// The live factors with their kinds, in index order.
    pub fn factors(&self) -> (r: Vec<(FactorIndex, FactorKind)>)
        ensures
            r@.map_values(|e: (FactorIndex, FactorKind)| e.0.0) == live_factor_indices(self@.factors),
            forall|k: int|
                0 <= k < r@.len() ==> self@.factors[(#[trigger] r@[k]).0.0 as int] == Some(r@[k].1),
    {
        let mut r: Vec<(FactorIndex, FactorKind)> = Vec::new();
        let mut i: usize = 0;
        while i < self.factors.len()
            invariant
                0 <= i <= self@.factors.len(),
                r@.map_values(|e: (FactorIndex, FactorKind)| e.0.0) == live_factor_indices(
                    self@.factors.take(i as int),
                ),
                forall|k: int|
                    0 <= k < r@.len() ==> (#[trigger] r@[k]).0.0 < i && self@.factors[r@[k].0.0 as int]
                        == Some(r@[k].1),
            decreases self@.factors.len() - i,
        {
            proof {
                assert(self@.factors.take(i + 1).drop_last() =~= self@.factors.take(i as int));
            }
            match self.factors[i] {
                Some(kind) => {
                    r.push((FactorIndex(i), kind));
                },
                None => {},
            }
            i = i + 1;
            proof {
                assert(r@.map_values(|e: (FactorIndex, FactorKind)| e.0.0) =~= live_factor_indices(
                    self@.factors.take(i as int),
                ));
            }
        }
        proof {
            assert(self@.factors.take(i as int) =~= self@.factors);
        }
        r
    }

    /// Remove the edge between `factor` and `variable`. Fails, and changes
    /// nothing, when there is no such edge.
    pub fn remove_edge(&mut self, factor: FactorIndex, variable: VariableIndex) -> (r: Result<
        (),
        RemoveConnectionToError,
    >)
        requires
            old(self)@.wf(),
        ensures
            final(self)@.wf(),
            r is Err <==> !old(self)@.has_edge(factor.0, variable.0),
            r is Err ==> final(self)@ == old(self)@,
            r is Ok ==> final(self)@ == (FactorGraphView {
                edges: old(self)@.edges.filter(edge_other_than(factor.0, variable.0)),
                ..old(self)@
            }),
            !final(self)@.has_edge(factor.0, variable.0),
    {
        if !self.has_edge(factor, variable) {
            return Err(RemoveConnectionToError);
        }
        let target = Edge { factor: factor.0, variable: variable.0 };
        let mut kept: Vec<Edge> = Vec::new();
        let mut i: usize = 0;
        let ghost orig = self@.edges;
        while i < self.edges.len()
            invariant
                0 <= i <= orig.len(),
                self@ == old(self)@,
                orig == old(self)@.edges,
                target == (Edge { factor: factor.0, variable: variable.0 }),
                kept@ == orig.take(i as int).filter(edge_other_than(factor.0, variable.0)),
            decreases orig.len() - i,
        {
            let e = self.edges[i];
            proof {
                assert(orig.take(i + 1) =~= orig.take(i as int).push(e));
                orig.take(i as int).lemma_filter_push(e, edge_other_than(factor.0, variable.0));
            }
            if e != target {
                kept.push(e);
            }
            i = i + 1;
        }
        proof {
            assert(orig.take(i as int) =~= orig);
            lemma_filter_no_duplicates(orig, edge_other_than(factor.0, variable.0));
            lemma_filter_contains_iff(orig, edge_other_than(factor.0, variable.0), target);
        }
        let ghost pre = self@;
        self.edges = kept;
        proof {
            assert forall|k: int| 0 <= k < self@.edges.len() implies self@.edge_ok(
                #[trigger] self@.edges[k],
            ) by {
                let e = self@.edges[k];
                assert(self@.edges.contains(e));
                lemma_filter_contains_iff(orig, edge_other_than(factor.0, variable.0), e);
                let j = choose|j: int| 0 <= j < orig.len() && orig[j] == e;
                assert(pre.edge_ok(pre.edges[j]));
            }
        }
        Ok(())
    }

    /// The factors that touch variable `variable`, in edge order, or `None`
    /// when it is not live.
    pub fn variable_neighbours(&self, variable: VariableIndex) -> (r: Option<Vec<FactorIndex>>)
        ensures
            r is None <==> !self@.has_variable(variable.0),
            r matches Some(fs) ==> fs@.map_values(|f: FactorIndex| f.0) == self@.edges.filter(
                edge_on_variable(variable.0),
            ).map_values(|e: Edge| e.factor),
    {
        let v = variable.0;
        if v >= self.variables.len() || !self.variables[v] {
            return None;
        }
        let mut r: Vec<FactorIndex> = Vec::new();
        let mut i: usize = 0;
        while i < self.edges.len()
            invariant
                0 <= i <= self@.edges.len(),
                v == variable.0,
                r@.map_values(|f: FactorIndex| f.0) == self@.edges.take(i as int).filter(edge_on_variable(v)).map_values(
                    |e: Edge| e.factor,
                ),
            decreases self@.edges.len() - i,
        {
            let e = self.edges[i];
            proof {
                assert(self@.edges.take(i + 1) =~= self@.edges.take(i as int).push(e));
                self@.edges.take(i as int).lemma_filter_push(e, edge_on_variable(v));
                assert(edge_on_variable(v)(e) == (e.variable == v));
            }
            let ghost prev = r@;
            if e.variable == v {
                r.push(FactorIndex(e.factor));
                proof {
                    assert(r@.map_values(|f: FactorIndex| f.0) =~= prev.map_values(|f: FactorIndex| f.0).push(e.factor));
                    assert(self@.edges.take(i as int).filter(edge_on_variable(v)).push(e).map_values(|e: Edge| e.factor)
                        =~= self@.edges.take(i as int).filter(edge_on_variable(v)).map_values(|e: Edge| e.factor).push(e.factor));
                }
            }
            i = i + 1;
            proof {
                assert(r@.map_values(|f: FactorIndex| f.0) =~= self@.edges.take(i as int).filter(
                    edge_on_variable(v),
                ).map_values(|e: Edge| e.factor));
            }
        }
        proof {
            assert(self@.edges.take(i as int) =~= self@.edges);
        }
        Some(r)
    }

    /// The kind of factor `factor`, or `None` when it is not live.
    pub fn factor_kind(&self, factor: FactorIndex) -> (r: Option<FactorKind>)
        ensures
            r == if factor.0 < self@.factors.len() {
                self@.factors[factor.0 as int]
            } else {
                None
            },
    {
        if factor.0 < self.factors.len() {
            self.factors[factor.0]
        } else {
            None
        }
    }

    /// Every edge, in order: the graph's connectivity as plain data.
    pub fn edges(&self) -> (r: Vec<Edge>)
        ensures
            r@ == self@.edges,
    {
        let mut r: Vec<Edge> = Vec::new();
        let mut i: usize = 0;
        while i < self.edges.len()
            invariant
                0 <= i <= self@.edges.len(),
                r@ == self@.edges.take(i as int),
            decreases self@.edges.len() - i,
        {
            r.push(self.edges[i]);
            i = i + 1;
            assert(r@ =~= self@.edges.take(i as int));
        }
        assert(self@.edges.take(i as int) =~= self@.edges);
        r
    }

    /// How many messages the graph has sent over its lifetime.
    pub fn messages_sent(&self) -> (r: usize)
        ensures
            r == self@.messages_sent,
    {
        self.messages_sent
    }

    /// Count `n` more sent messages; the count stops at `usize::MAX`.
    pub fn record_messages_sent(&mut self, n: usize)
        ensures
            final(self)@ == (FactorGraphView {
                messages_sent: if old(self)@.messages_sent + n > usize::MAX {
                    usize::MAX as nat
                } else {
                    (old(self)@.messages_sent + n) as nat
                },
                ..old(self)@
            }),
    {
        self.messages_sent = self.messages_sent.saturating_add(n);
    }

    /// Delete every inter-robot factor with robot `robot`, with its edges, and
    /// forget that this graph is connected with `robot`.
    pub fn delete_interrobot_factors(&mut self, robot: usize)
        requires
            old(self)@.wf(),
        ensures
            final(self)@.wf(),
            final(self)@.id == old(self)@.id,
            final(self)@.variables == old(self)@.variables,
            final(self)@.messages_sent == old(self)@.messages_sent,
            final(self)@.within_range == old(self)@.within_range,
            final(self)@.factors.len() == old(self)@.factors.len(),
            forall|f: int|
                0 <= f < old(self)@.factors.len() ==> #[trigger] final(self)@.factors[f] == if links_robot(
                    old(self)@.factors[f],
                    robot,
                ) {
                    None
                } else {
                    old(self)@.factors[f]
                },
            forall|f: usize, v: usize|
                #[trigger] final(self)@.has_edge(f, v) <==> old(self)@.has_edge(f, v) && !links_robot(
                    old(self)@.factors[f as int],
                    robot,
                ),
            forall|x: usize| #[trigger]
                final(self)@.connected_with.contains(x) <==> old(self)@.connected_with.contains(x)
                    && x != robot,
    {
        let mut f: usize = 0;
        while f < self.factors.len()
            invariant
                0 <= f <= self@.factors.len(),
                self@.wf(),
                self@.id == old(self)@.id,
                self@.variables == old(self)@.variables,
                self@.messages_sent == old(self)@.messages_sent,
                self@.within_range == old(self)@.within_range,
                self@.connected_with == old(self)@.connected_with,
                self@.factors.len() == old(self)@.factors.len(),
                forall|k: int|
                    0 <= k < self@.factors.len() ==> #[trigger] self@.factors[k] == if k < f
                        && links_robot(old(self)@.factors[k], robot) {
                        None
                    } else {
                        old(self)@.factors[k]
                    },
                forall|g: usize, v: usize|
                    #[trigger] self@.has_edge(g, v) <==> old(self)@.has_edge(g, v) && !(g < f
                        && links_robot(old(self)@.factors[g as int], robot)),
            decreases self@.factors.len() - f,
        {
            let hit = match self.factors[f] {
                Some(FactorKind::InterRobot { remote }) => remote.robot == robot,
                _ => false,
            };
            if hit {
                let ghost before = self@;
                let _ = self.remove_factor(FactorIndex(f));
                proof {
                    assert forall|g: usize, v: usize|
                        #[trigger] self@.has_edge(g, v) <==> old(self)@.has_edge(g, v) && !(g < f + 1
                            && links_robot(old(self)@.factors[g as int], robot)) by {
                        lemma_filter_contains_iff(
                            before.edges,
                            edge_not_on_factor(f),
                            Edge { factor: g, variable: v },
                        );
                        assert(before.has_edge(g, v) <==> old(self)@.has_edge(g, v) && !(g < f
                            && links_robot(old(self)@.factors[g as int], robot)));
                    }
                }
            } else {
                proof {
                    assert forall|g: usize, v: usize|
                        #[trigger] self@.has_edge(g, v) <==> old(self)@.has_edge(g, v) && !(g < f + 1
                            && links_robot(old(self)@.factors[g as int], robot)) by {
                        if g == f && old(self)@.has_edge(g, v) {
                            assert(self@.has_edge(g, v));
                        }
                    }
                }
            }
            f = f + 1;
        }
        proof {
            assert forall|g: usize, v: usize|
                #[trigger] old(self)@.has_edge(g, v) implies g < old(self)@.factors.len() by {
                let k = choose|k: int|
                    0 <= k < old(self)@.edges.len() && old(self)@.edges[k] == Edge { factor: g, variable: v };
                assert(old(self)@.edge_ok(old(self)@.edges[k]));
            }
        }
        let ghost pruned = self@;
        let mut kept: Vec<usize> = Vec::new();
        let mut i: usize = 0;
        while i < self.connected_with.len()
            invariant
                0 <= i <= self.connected_with@.len(),
                forall|x: usize| #[trigger]
                    kept@.contains(x) <==> self.connected_with@.take(i as int).contains(x) && x != robot,
            decreases self.connected_with@.len() - i,
        {
            let x = self.connected_with[i];
            proof {
                assert(self.connected_with@.take(i + 1) =~= self.connected_with@.take(i as int).push(x));
            }
            if x != robot {
                kept.push(x);
            }
            i = i + 1;
            proof {
                broadcast use vstd::seq_lib::group_seq_properties;
            }
        }
        proof {
            assert(self.connected_with@.take(i as int) =~= self.connected_with@);
        }
        self.connected_with = kept;
        proof {
            assert(self@.edges == pruned.edges);
            assert forall|g: usize, v: usize|
                #[trigger] self@.has_edge(g, v) <==> old(self)@.has_edge(g, v) && !links_robot(
                    old(self)@.factors[g as int],
                    robot,
                ) by {
                assert(self@.has_edge(g, v) == pruned.has_edge(g, v));
            }
        }
    }

    /// Create an inter-robot factor with robot `robot` for every live
    /// variable except the current state (index 0), each tied to the variable
    /// of the same index in `robot`'s graph, and record that this graph is
    /// connected with `robot`.
    pub fn create_interrobot_factors(&mut self, robot: usize)
        requires
            old(self)@.wf(),
        ensures
            final(self)@.wf(),
            final(self)@.id == old(self)@.id,
            final(self)@.variables == old(self)@.variables,
            final(self)@.messages_sent == old(self)@.messages_sent,
            final(self)@.within_range == old(self)@.within_range,
            final(self)@.factors == old(self)@.factors + interrobot_row(
                robot,
                horizon_variables(old(self)@.variables),
            ),
            final(self)@.edges == old(self)@.edges + interrobot_edges(
                old(self)@.factors.len() as int,
                horizon_variables(old(self)@.variables),
            ),
            final(self)@.factors.len() >= old(self)@.factors.len(),
            forall|f: int|
                0 <= f < old(self)@.factors.len() ==> #[trigger] final(self)@.factors[f]
                    == old(self)@.factors[f],
            forall|f: int|
                old(self)@.factors.len() <= f < final(self)@.factors.len()
                    ==> #[trigger] final(self)@.is_new_interrobot(old(self)@, robot, f),
            final(self)@.covers_robot(old(self)@, robot),
            forall|f: usize, v: usize|
                f < old(self)@.factors.len() ==> (#[trigger] final(self)@.has_edge(f, v)
                    <==> old(self)@.has_edge(f, v)),
            forall|x: usize| #[trigger]
                final(self)@.connected_with.contains(x) <==> old(self)@.connected_with.contains(x)
                    || x == robot,
    {
        let mut v: usize = 1;
        if self.variables.len() == 0 {
            v = 0;
        }
        while v < self.variables.len()
            invariant
                self@.variables.len() > 0 ==> 1 <= v,
                v <= self@.variables.len(),
                self@.wf(),
                self@.id == old(self)@.id,
                self@.variables == old(self)@.variables,
                self@.messages_sent == old(self)@.messages_sent,
                self@.within_range == old(self)@.within_range,
                self@.connected_with == old(self)@.connected_with,
                self@.factors == old(self)@.factors + interrobot_row(
                    robot,
                    horizon_variables(old(self)@.variables.take(v as int)),
                ),
                self@.edges == old(self)@.edges + interrobot_edges(
                    old(self)@.factors.len() as int,
                    horizon_variables(old(self)@.variables.take(v as int)),
                ),
                self@.factors.len() >= old(self)@.factors.len(),
                forall|f: int|
                    0 <= f < old(self)@.factors.len() ==> #[trigger] self@.factors[f]
                        == old(self)@.factors[f],
                forall|f: int|
                    old(self)@.factors.len() <= f < self@.factors.len() ==> #[trigger] self@.is_new_interrobot(
                        old(self)@,
                        robot,
                        f,
                    ),
                forall|w: usize|
                    w >= 1 && w < v && #[trigger] old(self)@.has_variable(w) ==> exists|f: int|
                        old(self)@.factors.len() <= f < self@.factors.len() && #[trigger] self@.factors[f]
                            == Some(interrobot_kind(robot, w)) && self@.has_edge(f as usize, w),
                forall|f: usize, w: usize|
                    f < old(self)@.factors.len() ==> (#[trigger] self@.has_edge(f, w)
                        <==> old(self)@.has_edge(f, w)),
            decreases self@.variables.len() - v,
        {
            let ghost hv = horizon_variables(old(self)@.variables.take(v as int));
            proof {
                assert(old(self)@.variables.take(v + 1).drop_last() =~= old(self)@.variables.take(v as int));
            }
            if self.variables[v] {
                let ghost before = self@;
                let r = self.add_factor(interrobot_kind_exec(robot, v), VariableIndex(v));
                proof {
                    let hv2 = horizon_variables(old(self)@.variables.take(v + 1));
                    assert(hv2 == hv.push(v));
                    assert(interrobot_row(robot, hv2) =~= interrobot_row(robot, hv).push(Some(interrobot_kind(robot, v))));
                    assert(before.factors.len() == old(self)@.factors.len() + hv.len());
                    assert(interrobot_edges(old(self)@.factors.len() as int, hv2) =~= interrobot_edges(
                        old(self)@.factors.len() as int,
                        hv,
                    ).push(Edge { factor: before.factors.len() as usize, variable: v }));
                    assert(self@.factors =~= old(self)@.factors + interrobot_row(robot, hv2));
                    assert(self@.edges =~= old(self)@.edges + interrobot_edges(old(self)@.factors.len() as int, hv2));
                    let nf = before.factors.len() as int;
                    let ne = Edge { factor: nf as usize, variable: v };
                    assert(self@.edges == before.edges.push(ne));
                    assert forall|e: Edge| before.edges.contains(e) implies self@.edges.contains(e) by {
                        let k = choose|k: int| 0 <= k < before.edges.len() && before.edges[k] == e;
                        assert(self@.edges[k] == e);
                    }
                    assert(self@.edges[before.edges.len() as int] == ne);
                    assert(self@.has_edge(nf as usize, v));
                    assert forall|f: int|
                        old(self)@.factors.len() <= f < self@.factors.len() implies #[trigger] self@.is_new_interrobot(
                            old(self)@,
                            robot,
                            f,
                        ) by {
                        if f < nf {
                            assert(self@.factors[f] == before.factors[f]);
                            assert(before.is_new_interrobot(old(self)@, robot, f));
                            let w = remote_index(before.factors[f]);
                            assert(before.has_edge(f as usize, w));
                        } else {
                            assert(self@.factors[f] == Some(interrobot_kind(robot, v)));
                        }
                    }
                    assert forall|w: usize|
                        w >= 1 && w < v + 1 && #[trigger] old(self)@.has_variable(w) implies exists|f: int|
                            old(self)@.factors.len() <= f < self@.factors.len() && #[trigger] self@.factors[f]
                                == Some(interrobot_kind(robot, w)) && self@.has_edge(f as usize, w) by {
                        if w < v {
                            let f = choose|f: int|
                                old(self)@.factors.len() <= f < before.factors.len() && #[trigger] before.factors[f]
                                    == Some(interrobot_kind(robot, w)) && before.has_edge(f as usize, w);
                            assert(self@.factors[f] == before.factors[f]);
                            assert(before.has_edge(f as usize, w));
                        } else {
                            assert(self@.factors[nf] == Some(interrobot_kind(robot, w)));
                        }
                    }
                    assert forall|f: usize, w: usize|
                        f < old(self)@.factors.len() implies (#[trigger] self@.has_edge(f, w)
                            <==> old(self)@.has_edge(f, w)) by {
                        if self@.has_edge(f, w) && !before.has_edge(f, w) {
                            let k = choose|k: int|
                                0 <= k < self@.edges.len() && self@.edges[k] == Edge { factor: f, variable: w };
                            assert(k < before.edges.len() ==> before.edges[k] == self@.edges[k]);
                        }
                        if before.has_edge(f, w) {
                            assert(before.edges.contains(Edge { factor: f, variable: w }));
                        }
                    }
                }
            } else {
                proof {
                    assert(horizon_variables(old(self)@.variables.take(v + 1)) == hv);
                }
            }
            v = v + 1;
        }
        proof {
            assert(old(self)@.variables.take(v as int) =~= old(self)@.variables);
        }
        let ghost pre = self@;
        self.connected_with.push(robot);
        proof {
            broadcast use vstd::seq_lib::group_seq_properties;

            assert(self@.edges == pre.edges && self@.factors == pre.factors);
            assert forall|f: int|
                old(self)@.factors.len() <= f < self@.factors.len() implies #[trigger] self@.is_new_interrobot(
                    old(self)@,
                    robot,
                    f,
                ) by {
                assert(pre.is_new_interrobot(old(self)@, robot, f));
                assert(pre.has_edge(f as usize, remote_index(pre.factors[f])));
            }
            assert forall|f: usize, w: usize| f < old(self)@.factors.len() implies (#[trigger] self@.has_edge(f, w)
                <==> old(self)@.has_edge(f, w)) by {
                assert(pre.has_edge(f, w) == self@.has_edge(f, w));
            }
            assert forall|w: usize| w >= 1 && #[trigger] old(self)@.has_variable(w) implies exists|f: int|
                old(self)@.factors.len() <= f < self@.factors.len() && #[trigger] self@.factors[f] == Some(
                    interrobot_kind(robot, w),
                ) && self@.has_edge(f as usize, w) by {
                let f = choose|f: int|
                    old(self)@.factors.len() <= f < pre.factors.len() && #[trigger] pre.factors[f] == Some(
                        interrobot_kind(robot, w),
                    ) && pre.has_edge(f as usize, w);
                assert(pre.has_edge(f as usize, w) == self@.has_edge(f as usize, w));
            }
        }
    }

    /// Record which robots are within communication range; repeated ids
    /// count once.
    pub fn set_robots_within_range(&mut self, robots: &Vec<usize>)
        requires
            old(self)@.wf(),
        ensures
            final(self)@.wf(),
            final(self)@ == (FactorGraphView { within_range: final(self)@.within_range, ..old(self)@ }),
            forall|x: usize| #[trigger] final(self)@.within_range.contains(x) <==> robots@.contains(x),
    {
        let mut within: Vec<usize> = Vec::new();
        let mut i: usize = 0;
        while i < robots.len()
            invariant
                0 <= i <= robots@.len(),
                within@.no_duplicates(),
                forall|x: usize| #[trigger] within@.contains(x) <==> robots@.take(i as int).contains(x),
            decreases robots@.len() - i,
        {
            let x = robots[i];
            proof {
                assert(robots@.take(i + 1) =~= robots@.take(i as int).push(x));
                broadcast use vstd::seq_lib::group_seq_properties;
            }
            if !contains_id(&within, x) {
                let ghost before = within@;
                within.push(x);
                proof {
                    assert forall|a: int, b: int|
                        0 <= a < within@.len() && 0 <= b < within@.len() && a != b implies within@[a]
                        != within@[b] by {
                        if a < before.len() && b < before.len() {
                            assert(before[a] != before[b]);
                        } else if a < before.len() {
                            assert(before.contains(within@[a]));
                        } else {
                            assert(before.contains(within@[b]));
                        }
                    }
                }
            }
            i = i + 1;
        }
        proof {
            assert(robots@.take(i as int) =~= robots@);
        }
        let ghost pre = self@;
        self.within_range = within;
        proof {
            assert(self@.edges == pre.edges && self@.factors == pre.factors && self@.variables
                == pre.variables);
            assert forall|k: int| 0 <= k < self@.edges.len() implies self@.edge_ok(
                #[trigger] self@.edges[k],
            ) by {
                assert(pre.edge_ok(pre.edges[k]));
            }
        }
    }

    fn stale_robots(&self) -> (r: Vec<usize>)
        ensures
            forall|x: usize| #[trigger] r@.contains(x) <==> self@.stale_robot(x),
    {
        let mut r: Vec<usize> = Vec::new();
        let mut i: usize = 0;
        while i < self.connected_with.len()
            invariant
                0 <= i <= self@.connected_with.len(),
                forall|x: usize| #[trigger]
                    r@.contains(x) <==> self@.connected_with.take(i as int).contains(x)
                        && !self@.within_range.contains(x),
            decreases self@.connected_with.len() - i,
        {
            let x = self.connected_with[i];
            proof {
                assert(self@.connected_with.take(i + 1) =~= self@.connected_with.take(i as int).push(x));
                broadcast use vstd::seq_lib::group_seq_properties;
            }
            if !contains_id(&self.within_range, x) {
                r.push(x);
            }
            i = i + 1;
        }
        proof {
            assert(self@.connected_with.take(i as int) =~= self@.connected_with);
        }
        r
    }

    fn fresh_robots(&self) -> (r: Vec<usize>)
        requires
            self@.within_range.no_duplicates(),
        ensures
            r@.no_duplicates(),
            forall|x: usize| #[trigger] r@.contains(x) <==> self@.fresh_robot(x),
    {
        let mut r: Vec<usize> = Vec::new();
        let mut i: usize = 0;
        while i < self.within_range.len()
            invariant
                0 <= i <= self@.within_range.len(),
                self@.within_range.no_duplicates(),
                r@.no_duplicates(),
                forall|x: usize| #[trigger]
                    r@.contains(x) <==> self@.within_range.take(i as int).contains(x)
                        && !self@.connected_with.contains(x),
            decreases self@.within_range.len() - i,
        {
            let x = self.within_range[i];
            proof {
                assert(self@.within_range.take(i + 1) =~= self@.within_range.take(i as int).push(x));
                broadcast use vstd::seq_lib::group_seq_properties;
            }
            if !contains_id(&self.connected_with, x) {
                let ghost before = r@;
                proof {
                    if before.contains(x) {
                        let k = choose|k: int| 0 <= k < i && self@.within_range[k] == x;
                        assert(self@.within_range.take(i as int).contains(x));
                        let k = choose|k: int|
                            0 <= k < i && self@.within_range.take(i as int)[k] == x;
                        assert(self@.within_range[k] == self@.within_range[i as int]);
                    }
                }
                r.push(x);
                proof {
                    assert forall|a: int, b: int|
                        0 <= a < r@.len() && 0 <= b < r@.len() && a != b implies r@[a] != r@[b] by {
                        if a < before.len() && b < before.len() {
                            assert(before[a] != before[b]);
                        } else if a < before.len() {
                            assert(before.contains(r@[a]));
                        } else {
                            assert(before.contains(r@[b]));
                        }
                    }
                }
            }
            i = i + 1;
        }
        proof {
            assert(self@.within_range.take(i as int) =~= self@.within_range);
        }
        r
    }

    /// One round of inter-robot factor maintenance: delete the inter-robot
    /// factors with every robot connected with but no longer within range,
    /// and create them with every robot within range but not yet connected
    /// with. A second round with no change of range changes nothing.
    pub fn update_interrobot_factors(&mut self)
        requires
            old(self)@.wf(),
        ensures
            old(self)@.maintained_as(final(self)@),
    {
        let ghost a = self@;
        let stale = self.stale_robots();
        let fresh = self.fresh_robots();
        if stale.len() == 0 && fresh.len() == 0 {
            proof {
                assert forall|r: usize| #[trigger] a.connected_with.contains(r) <==> a.within_range.contains(r) by {
                    if a.connected_with.contains(r) && !a.within_range.contains(r) {
                        assert(stale@.contains(r));
                    }
                    if !a.connected_with.contains(r) && a.within_range.contains(r) {
                        assert(fresh@.contains(r));
                    }
                }
                assert forall|f: int| 0 <= f < a.factors.len() implies #[trigger] a.factors[f] == if a.deletes(
                    a.factors[f],
                ) {
                    None
                } else {
                    a.factors[f]
                } by {
                    if a.deletes(a.factors[f]) {
                        assert(stale@.contains(remote_robot(a.factors[f])));
                    }
                }
                assert forall|f: usize, v: usize| f < a.factors.len() implies (#[trigger] a.has_edge(f, v)
                    <==> a.has_edge(f, v) && !a.deletes(a.factors[f as int])) by {
                    if a.deletes(a.factors[f as int]) {
                        assert(stale@.contains(remote_robot(a.factors[f as int])));
                    }
                }
                assert forall|r: usize| #[trigger] a.fresh_robot(r) implies a.covers_robot(a, r) by {
                    assert(fresh@.contains(r));
                }
            }
            return;
        }
        let mut i: usize = 0;
        while i < stale.len()
            invariant
                0 <= i <= stale@.len(),
                forall|x: usize| #[trigger] stale@.contains(x) <==> a.stale_robot(x),
                a.wf(),
                self@.wf(),
                self@.id == a.id,
                self@.variables == a.variables,
                self@.messages_sent == a.messages_sent,
                self@.within_range == a.within_range,
                self@.factors.len() == a.factors.len(),
                forall|f: int|
                    0 <= f < a.factors.len() ==> #[trigger] self@.factors[f] == if links_any(
                        a.factors[f],
                        stale@.take(i as int),
                    ) {
                        None
                    } else {
                        a.factors[f]
                    },
                forall|g: usize, v: usize|
                    #[trigger] self@.has_edge(g, v) <==> a.has_edge(g, v) && !links_any(
                        a.factors[g as int],
                        stale@.take(i as int),
                    ),
                forall|x: usize| #[trigger]
                    self@.connected_with.contains(x) <==> a.connected_with.contains(x)
                        && !stale@.take(i as int).contains(x),
            decreases stale@.len() - i,
        {
            let robot = stale[i];
            let ghost before = self@;
            self.delete_interrobot_factors(robot);
            proof {
                broadcast use vstd::seq_lib::group_seq_properties;

                let t = stale@.take(i as int);
                assert(stale@.take(i + 1) =~= t.push(robot));
                assert forall|k: Option<FactorKind>| #[trigger] links_any(k, t.push(robot)) <==> links_any(k, t)
                    || links_robot(k, robot) by {}
                assert forall|f: int| 0 <= f < a.factors.len() implies #[trigger] self@.factors[f] == if links_any(
                    a.factors[f],
                    t.push(robot),
                ) {
                    None
                } else {
                    a.factors[f]
                } by {
                    assert(self@.factors[f] == if links_robot(before.factors[f], robot) {
                        None
                    } else {
                        before.factors[f]
                    });
                }
                assert forall|g: usize, v: usize|
                    #[trigger] self@.has_edge(g, v) <==> a.has_edge(g, v) && !links_any(
                        a.factors[g as int],
                        t.push(robot),
                    ) by {
                    assert(self@.has_edge(g, v) <==> before.has_edge(g, v) && !links_robot(
                        before.factors[g as int],
                        robot,
                    ));
                    if g >= a.factors.len() {
                        assert(!before.has_edge(g, v)) by {
                            if before.has_edge(g, v) {
                                let k = choose|k: int|
                                    0 <= k < before.edges.len() && before.edges[k] == Edge { factor: g, variable: v };
                                assert(before.edge_ok(before.edges[k]));
                            }
                        }
                        assert(!a.has_edge(g, v)) by {
                            if a.has_edge(g, v) {
                                let k = choose|k: int|
                                    0 <= k < a.edges.len() && a.edges[k] == Edge { factor: g, variable: v };
                                assert(a.edge_ok(a.edges[k]));
                            }
                        }
                    }
                }
            }
            i = i + 1;
        }
        let n_variables = self.variables.len();
        let ghost d = self@;
        proof {
            assert(stale@.take(i as int) =~= stale@);
            assert forall|k: Option<FactorKind>| #[trigger] links_any(k, stale@) <==> a.deletes(k) by {}
        }
        let mut j: usize = 0;
        while j < fresh.len()
            invariant
                0 <= j <= fresh@.len(),
                forall|x: usize| #[trigger] fresh@.contains(x) <==> a.fresh_robot(x),
                forall|x: usize| #[trigger] stale@.contains(x) <==> a.stale_robot(x),
                self@.wf(),
                self@.id == a.id,
                self@.variables == a.variables,
                self@.messages_sent == a.messages_sent,
                self@.within_range == a.within_range,
                self@.factors.len() >= a.factors.len(),
                forall|f: int|
                    0 <= f < a.factors.len() ==> #[trigger] self@.factors[f] == if a.deletes(a.factors[f]) {
                        None
                    } else {
                        a.factors[f]
                    },
                forall|f: int|
                    a.factors.len() <= f < self@.factors.len() ==> #[trigger] self@.is_new_for_fresh(a, f),
                forall|r: usize| #[trigger] fresh@.take(j as int).contains(r) ==> self@.covers_robot(a, r),
                fresh@.no_duplicates(),
                a.variables.len() == n_variables,
                forall|f: int|
                    a.factors.len() <= f < self@.factors.len() ==> fresh@.take(j as int).contains(
                        remote_robot(#[trigger] self@.factors[f]),
                    ),
                forall|f1: int, f2: int|
                    a.factors.len() <= f1 < self@.factors.len() && a.factors.len() <= f2
                        < self@.factors.len() && f1 != f2 ==> #[trigger] self@.factors[f1]
                        != #[trigger] self@.factors[f2],
                forall|f: usize, v: usize|
                    f < a.factors.len() ==> (#[trigger] self@.has_edge(f, v) <==> a.has_edge(f, v)
                        && !a.deletes(a.factors[f as int])),
                forall|x: usize| #[trigger]
                    self@.connected_with.contains(x) <==> (a.connected_with.contains(x)
                        && !a.stale_robot(x)) || fresh@.take(j as int).contains(x),
            decreases fresh@.len() - j,
        {
            let robot = fresh[j];
            let ghost c = self@;
            self.create_interrobot_factors(robot);
            proof {
                broadcast use vstd::seq_lib::group_seq_properties;

                let t = fresh@.take(j as int);
                assert(fresh@.take(j + 1) =~= t.push(robot));
                assert(fresh@.contains(robot));
                assert forall|f: int|
                    a.factors.len() <= f < self@.factors.len() implies #[trigger] self@.is_new_for_fresh(a, f) by {
                    if f < c.factors.len() {
                        assert(self@.factors[f] == c.factors[f]);
                        assert(c.is_new_for_fresh(a, f));
                        assert(c.has_edge(f as usize, remote_index(c.factors[f])));
                        assert(a.fresh_robot(remote_robot(c.factors[f])));
                    } else {
                        assert(self@.is_new_interrobot(c, robot, f));
                        assert(remote_robot(self@.factors[f]) == robot);
                        assert(a.fresh_robot(robot));
                    }
                }
                assert forall|r: usize| #[trigger] fresh@.take(j + 1).contains(r) implies self@.covers_robot(a, r) by {
                    if r == robot {
                        assert(self@.covers_robot(c, robot));
                        assert forall|v: usize| v >= 1 && #[trigger] a.has_variable(v) implies exists|f: int|
                            a.factors.len() <= f < self@.factors.len() && #[trigger] self@.factors[f] == Some(
                                interrobot_kind(r, v),
                            ) && self@.has_edge(f as usize, v) by {
                            assert(c.has_variable(v));
                            let f = choose|f: int|
                                c.factors.len() <= f < self@.factors.len() && #[trigger] self@.factors[f] == Some(
                                    interrobot_kind(robot, v),
                                ) && self@.has_edge(f as usize, v);
                        }
                    } else {
                        assert(t.contains(r));
                        assert(c.covers_robot(a, r));
                        assert forall|v: usize| v >= 1 && #[trigger] a.has_variable(v) implies exists|f: int|
                            a.factors.len() <= f < self@.factors.len() && #[trigger] self@.factors[f] == Some(
                                interrobot_kind(r, v),
                            ) && self@.has_edge(f as usize, v) by {
                            let f = choose|f: int|
                                a.factors.len() <= f < c.factors.len() && #[trigger] c.factors[f] == Some(
                                    interrobot_kind(r, v),
                                ) && c.has_edge(f as usize, v);
                            assert(self@.factors[f] == c.factors[f]);
                            assert(self@.has_edge(f as usize, v) <==> c.has_edge(f as usize, v));
                        }
                    }
                }
                assert forall|f: usize, v: usize| f < a.factors.len() implies (#[trigger] self@.has_edge(f, v)
                    <==> a.has_edge(f, v) && !a.deletes(a.factors[f as int])) by {
                    assert(self@.has_edge(f, v) <==> c.has_edge(f, v));
                }
                let hv = horizon_variables(c.variables);
                lemma_horizon_variables(c.variables);
                assert forall|f: int| c.factors.len() <= f < self@.factors.len() implies self@.factors[f]
                    == Some(interrobot_kind(robot, hv[f - c.factors.len()])) by {
                    assert(self@.factors[f] == interrobot_row(robot, hv)[f - c.factors.len()]);
                }
                assert(!t.contains(robot)) by {
                    if t.contains(robot) {
                        let k = choose|k: int| 0 <= k < t.len() && t[k] == robot;
                        assert(fresh@[k] == fresh@[j as int]);
                    }
                }
                assert forall|f: int| a.factors.len() <= f < self@.factors.len() implies fresh@.take(
                    j + 1,
                ).contains(remote_robot(#[trigger] self@.factors[f])) by {
                    if f < c.factors.len() {
                        assert(self@.factors[f] == c.factors[f]);
                        assert(t.contains(remote_robot(c.factors[f])));
                        let k = choose|k: int| 0 <= k < t.len() && t[k] == remote_robot(c.factors[f]);
                        assert(fresh@.take(j + 1)[k] == t[k]);
                    } else {
                        assert(fresh@.take(j + 1)[j as int] == robot);
                    }
                }
                assert forall|f1: int, f2: int|
                    a.factors.len() <= f1 < self@.factors.len() && a.factors.len() <= f2
                        < self@.factors.len() && f1 != f2 implies #[trigger] self@.factors[f1]
                        != #[trigger] self@.factors[f2] by {
                    let n = c.factors.len() as int;
                    if f1 < n && f2 < n {
                        assert(self@.factors[f1] == c.factors[f1] && self@.factors[f2] == c.factors[f2]);
                    } else if f1 >= n && f2 >= n {
                        assert(hv[f1 - n] != hv[f2 - n]);
                    } else if f1 < n {
                        assert(self@.factors[f1] == c.factors[f1]);
                        assert(t.contains(remote_robot(c.factors[f1])));
                    } else {
                        assert(self@.factors[f2] == c.factors[f2]);
                        assert(t.contains(remote_robot(c.factors[f2])));
                    }
                }
            }
            j = j + 1;
        }
        proof {
            assert(fresh@.take(j as int) =~= fresh@);
            assert forall|r: usize| #[trigger] self@.connected_with.contains(r) <==> self@.within_range.contains(r) by {
                if a.within_range.contains(r) && !a.connected_with.contains(r) {
                    assert(fresh@.contains(r));
                }
            }
            assert(!a.in_sync()) by {
                if stale@.len() > 0 {
                    assert(stale@.contains(stale@[0]));
                    assert(a.stale_robot(stale@[0]));
                } else {
                    assert(fresh@.contains(fresh@[0]));
                    assert(a.fresh_robot(fresh@[0]));
                }
            }
            assert forall|r: usize| #[trigger] a.fresh_robot(r) implies self@.covers_robot(a, r) by {
                assert(fresh@.contains(r));
            }
        }
    }
}

} // verus!

verus! {

/// Running inter-robot factor maintenance twice with no change of which
/// robots are within range: the second round changes nothing, so no factor
/// is created twice and none is deleted by mistake.
pub proof fn lemma_maintenance_idempotent(
    g0: FactorGraphView,
    g1: FactorGraphView,
    g2: FactorGraphView,
)
    requires
        g0.wf(),
        g0.maintained_as(g1),
        g1.maintained_as(g2),
    ensures
        g2 == g1,
{
}

/// Removing a variable removes every edge on it: afterwards the variable is
/// not live, no factor is found to touch it, every other edge is kept, and
/// the graph is still well formed.
pub proof fn lemma_remove_variable_drops_edges(g: FactorGraphView, v: usize)
    requires
        g.wf(),
        g.has_variable(v),
    ensures
        g.without_variable(v).wf(),
        !g.without_variable(v).has_variable(v),
        forall|f: usize| !(#[trigger] g.without_variable(v).has_edge(f, v)),
        forall|f: usize, w: usize|
            w != v ==> (#[trigger] g.without_variable(v).has_edge(f, w) <==> g.has_edge(f, w)),
{
    let h = g.without_variable(v);
    let p = edge_not_on_variable(v);
    assert forall|f: usize, w: usize| #[trigger] h.has_edge(f, w) <==> g.has_edge(f, w) && w != v by {
        lemma_filter_contains_iff(g.edges, p, Edge { factor: f, variable: w });
    }
    assert forall|i: int| 0 <= i < h.edges.len() implies h.edge_ok(#[trigger] h.edges[i]) by {
        let e = h.edges[i];
        assert(h.edges.contains(e));
        assert(h.has_edge(e.factor, e.variable));
        let k = choose|k: int| 0 <= k < g.edges.len() && g.edges[k] == e;
        assert(g.edge_ok(g.edges[k]));
    }
    lemma_filter_no_duplicates(g.edges, p);
}

} // verus!
