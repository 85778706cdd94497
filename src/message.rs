//! Messages between variables and factors, and the inbox in which a variable
//! keeps the latest message from each connected factor.

use vstd::prelude::*;

verus! {

/// Identifies a factor graph; one robot owns one graph.
pub type FactorGraphId = usize;

/// A factor, named by the graph that owns it and its index there; unique
/// across all robots.
#[derive(Debug, Clone, Copy, PartialEq, Eq, Structural)]
pub struct FactorId {
    pub factorgraph_id: FactorGraphId,
    pub factor_index: usize,
}

/// A message in canonical Gaussian form, with payload `G` (information vector,
/// precision matrix and mean), or empty: no information contributed.
#[derive(Debug)]
pub struct Message<G> {
    dofs: usize,
    payload: Option<G>,
}

impl<G> Message<G> {
    /// Degrees of freedom of the Gaussian the message is about.
    pub closed spec fn spec_dofs(&self) -> nat {
        self.dofs as nat
    }

    /// The information the message carries, if any.
    pub closed spec fn spec_payload(&self) -> Option<G> {
        self.payload
    }

    /// The payload, if any, as handed out by `payload`.
    pub open spec fn payload_ref(&self) -> Option<&G> {
        match self.spec_payload() {
            Some(g) => Some(&g),
            None => None,
        }
    }

    /// A message that carries no information.
    pub fn empty(dofs: usize) -> (r: Self)
        ensures
            r.spec_dofs() == dofs,
            r.spec_payload() is None,
    {
        Message { dofs, payload: None }
    }

    /// A message carrying `payload`.
    pub fn new(dofs: usize, payload: G) -> (r: Self)
        ensures
            r.spec_dofs() == dofs,
            r.spec_payload() == Some(payload),
    {
        Message { dofs, payload: Some(payload) }
    }

    /// Whether the message carries no information.
    pub fn is_empty(&self) -> (r: bool)
        ensures
            r <==> self.spec_payload() is None,
    {
        self.payload.is_none()
    }

    /// The information the message carries, if any.
    pub fn payload(&self) -> (r: Option<&G>)
        ensures
            r is None <==> self.spec_payload() is None,
            r matches Some(g) ==> self.spec_payload() == Some(*g),
            r == self.payload_ref(),
    {
        self.payload.as_ref()
    }

    /// Degrees of freedom of the Gaussian the message is about.
    pub fn dofs(&self) -> (r: usize)
        ensures
            r == self.spec_dofs(),
    {
        self.dofs
    }

    /// Combine two messages about the same Gaussian, given how to add two
    /// payloads: an empty message contributes nothing, so combining with one
    /// gives back the other.
    pub fn combine<F: Fn(G, G) -> G>(self, other: Self, sum: F) -> (r: Self)
        requires
            forall|a: G, b: G| #[trigger] sum.requires((a, b)),
        ensures
            r.spec_dofs() == self.spec_dofs(),
            other.spec_payload() is None ==> r.spec_payload() == self.spec_payload(),
            self.spec_payload() is None ==> r.spec_payload() == other.spec_payload(),
            (self.spec_payload() is Some && other.spec_payload() is Some) ==> {
                &&& r.spec_payload() is Some
                &&& sum.ensures(
                    (self.spec_payload()->Some_0, other.spec_payload()->Some_0),
                    r.spec_payload()->Some_0,
                )
            },
    {
        let dofs = self.dofs;
        match (self.payload, other.payload) {
            (Some(a), Some(b)) => Message { dofs, payload: Some(sum(a, b)) },
            (Some(a), None) => Message { dofs, payload: Some(a) },
            (None, p) => Message { dofs, payload: p },
        }
    }
}

/// The payloads of the messages of `entries` that carry information, in order.
pub open spec fn payloads_of<G>(entries: Seq<(FactorId, Message<G>)>) -> Seq<G>
    decreases entries.len(),
{
    if entries.len() == 0 {
        Seq::empty()
    } else {
        let before = payloads_of(entries.drop_last());
        match entries.last().1.spec_payload() {
            Some(g) => before.push(g),
            None => before,
        }
    }
}

/// `steps` records `sum` folding `items` into `start`, from the first item
/// to the last: it starts at `start`, and each step is what `sum` returns on
/// the step before and the next item.
pub open spec fn fold_steps<G, F: Fn(G, &G) -> G>(sum: F, start: G, items: Seq<G>, steps: Seq<G>) -> bool {
    &&& steps.len() == items.len() + 1
    &&& steps[0] == start
    &&& forall|k: int| 0 <= k < items.len() ==> sum.ensures((steps[k], &items[k]), #[trigger] steps[k + 1])
}

/// Whether an inbox entry comes from a factor outside graph `graph`.
pub open spec fn outside_graph<G>(graph: FactorGraphId) -> spec_fn((FactorId, Message<G>)) -> bool {
    |e: (FactorId, Message<G>)| e.0.factorgraph_id != graph
}

/// The connection that was asked to be removed did not exist.
#[derive(Debug, Clone, Copy, PartialEq, Eq, Structural)]
pub struct RemoveConnectionToError;

/// The latest message from each connected factor, in the order in which the
/// factors first sent one.
#[derive(Debug)]
pub struct Inbox<G> {
    entries: Vec<(FactorId, Message<G>)>,
}

impl<G> Inbox<G> {
    /// The entries, in order.
    pub closed spec fn view(&self) -> Seq<(FactorId, Message<G>)> {
        self.entries@
    }

    /// The factors that have an entry, in order.
    pub open spec fn keys(&self) -> Seq<FactorId> {
        self@.map_values(|e: (FactorId, Message<G>)| e.0)
    }

    /// Each factor has at most one entry.
    pub open spec fn wf(&self) -> bool {
        self.keys().no_duplicates()
    }

    /// Whether `factor` has an entry.
    pub open spec fn has(&self, factor: FactorId) -> bool {
        exists|i: int| 0 <= i < self@.len() && (#[trigger] self@[i]).0 == factor
    }

    /// The message stored for `factor`, if any.
    pub open spec fn message_from(&self, factor: FactorId) -> Option<Message<G>> {
        if self.has(factor) {
            Some(self@[choose|i: int| 0 <= i < self@.len() && (#[trigger] self@[i]).0 == factor].1)
        } else {
            None
        }
    }

    /// An inbox with no entries.
    pub fn new() -> (r: Self)
        ensures
            r.wf(),
            r@.len() == 0,
    {
        Inbox { entries: Vec::new() }
    }

    /// Number of connected factors.
    pub fn len(&self) -> (r: usize)
        ensures
            r == self@.len(),
    {
        self.entries.len()
    }

    fn position_of(&self, factor: FactorId) -> (r: Option<usize>)
        requires
            self.wf(),
        ensures
            r matches Some(i) ==> i < self@.len() && self@[i as int].0 == factor,
            r is None ==> !self.has(factor),
    {
        let mut i: usize = 0;
        while i < self.entries.len()
            invariant
                0 <= i <= self@.len(),
                forall|k: int| 0 <= k < i ==> (#[trigger] self@[k]).0 != factor,
            decreases self@.len() - i,
        {
            if self.entries[i].0 == factor {
                return Some(i);
            }
            i = i + 1;
        }
        None
    }

    /// Store `message` as the latest from `from`, replacing the one stored
    /// before, if any.
    pub fn receive_message_from(&mut self, from: FactorId, message: Message<G>)
        requires
            old(self).wf(),
        ensures
            final(self).wf(),
            final(self).message_from(from) == Some(message),
            final(self).keys() == if old(self).has(from) {
                old(self).keys()
            } else {
                old(self).keys().push(from)
            },
            forall|k: FactorId|
                k != from ==> #[trigger] final(self).message_from(k) == old(self).message_from(k),
            forall|k: FactorId| #[trigger] final(self).has(k) <==> old(self).has(k) || k == from,
    {
        proof {
            broadcast use vstd::seq_lib::group_seq_properties;
        }
        match self.position_of(from) {
            Some(i) => {
                assert(old(self)@[i as int].0 == from);
                self.entries[i] = (from, message);
                assert(self.keys() =~= old(self).keys());
                assert(self@[i as int].0 == from);
            },
            None => {
                self.entries.push((from, message));
                assert(self.keys() =~= old(self).keys().push(from));
                assert(self@[self@.len() - 1].0 == from);
            },
        }
        assert forall|k: FactorId| #[trigger] self.has(k) <==> old(self).has(k) || k == from by {
            if old(self).has(k) {
                let j = choose|j: int| 0 <= j < old(self)@.len() && (#[trigger] old(self)@[j]).0 == k;
                assert(self@[j].0 == k);
            }
            if self.has(k) && k != from {
                let j = choose|j: int| 0 <= j < self@.len() && (#[trigger] self@[j]).0 == k;
                assert(old(self)@[j].0 == k);
            }
        }
        proof {
            self.lemma_unique_index(from);
        }
        assert forall|k: FactorId| k != from implies #[trigger] self.message_from(k) == old(
            self,
        ).message_from(k) by {
            if old(self).has(k) {
                self.lemma_unique_index(k);
                old(self).lemma_unique_index(k);
                let j = choose|j: int| 0 <= j < old(self)@.len() && (#[trigger] old(self)@[j]).0 == k;
                assert(self@[j] == old(self)@[j]);
            }
        }
    }

    /// The message stored for `from`, if any.
    pub fn read_message_from(&self, from: FactorId) -> (r: Option<&Message<G>>)
        requires
            self.wf(),
        ensures
            r is None <==> !self.has(from),
            r matches Some(m) ==> self.message_from(from) == Some(*m),
    {
        match self.position_of(from) {
            Some(i) => {
                proof {
                    self.lemma_unique_index(from);
                }
                Some(&self.entries[i].1)
            },
            None => None,
        }
    }

    /// The connected factors, in order.
    pub fn factor_ids(&self) -> (r: Vec<FactorId>)
        ensures
            r@ == self.keys(),
    {
        let mut r: Vec<FactorId> = Vec::new();
        let mut i: usize = 0;
        while i < self.entries.len()
            invariant
                0 <= i <= self@.len(),
                r@ == self.keys().take(i as int),
            decreases self@.len() - i,
        {
            r.push(self.entries[i].0);
            i = i + 1;
            assert(r@ =~= self.keys().take(i as int));
        }
        assert(r@ =~= self.keys());
        r
    }

    /// Replace every stored message by an empty one, keeping the connected
    /// factors, so that each factor's next message starts from scratch.
    pub fn clear_messages(&mut self, dofs: usize)
        requires
            old(self).wf(),
        ensures
            final(self).wf(),
            final(self).keys() == old(self).keys(),
            forall|i: int|
                0 <= i < final(self)@.len() ==> (#[trigger] final(self)@[i]).1.spec_payload() is None
                    && final(self)@[i].1.spec_dofs() == dofs,
    {
        let mut i: usize = 0;
        while i < self.entries.len()
            invariant
                0 <= i <= self@.len(),
                self.keys() == old(self).keys(),
                forall|k: int|
                    0 <= k < i ==> (#[trigger] self@[k]).1.spec_payload() is None
                        && self@[k].1.spec_dofs() == dofs,
            decreases self@.len() - i,
        {
            let id = self.entries[i].0;
            self.entries[i] = (id, Message::empty(dofs));
            i = i + 1;
            assert(self.keys() =~= old(self).keys());
        }
    }

    /// Remove the entries of every factor of graph `graph`. Fails, and
    /// changes nothing, when there is none.
    pub fn remove_connection_to(&mut self, graph: FactorGraphId) -> (r: Result<
        (),
        RemoveConnectionToError,
    >)
        requires
            old(self).wf(),
        ensures
            final(self).wf(),
            final(self)@ == old(self)@.filter(outside_graph(graph)),
            r is Err <==> forall|i: int|
                0 <= i < old(self)@.len() ==> (#[trigger] old(self)@[i]).0.factorgraph_id != graph,
    {
        let ghost orig = self@;
        let mut rest: Vec<(FactorId, Message<G>)> = Vec::new();
        std::mem::swap(&mut self.entries, &mut rest);
        let mut removed = false;
        let ghost mut n: int = 0;
        proof {
            old(self).lemma_unique_index_all();
        }
        while rest.len() > 0
            invariant
                0 <= n <= orig.len(),
                rest@ == orig.skip(n),
                self@ == orig.take(n).filter(outside_graph(graph)),
                forall|a: int, b: int|
                    0 <= a < self@.len() && 0 <= b < self@.len() && a != b ==> (#[trigger] self@[a]).0
                        != (#[trigger] self@[b]).0,
                forall|a: int, b: int|
                    0 <= a < orig.len() && 0 <= b < orig.len() && (#[trigger] orig[a]).0 == (
                    #[trigger] orig[b]).0 ==> a == b,
                forall|k: int|
                    0 <= k < self@.len() ==> exists|j: int|
                        0 <= j < n && (#[trigger] orig[j]).0 == (#[trigger] self@[k]).0,
                removed <==> exists|j: int|
                    0 <= j < n && (#[trigger] orig[j]).0.factorgraph_id == graph,
            decreases rest@.len(),
        {
            let e = rest.remove(0);
            proof {
                assert(e == orig[n]);
                assert(orig.take(n + 1).drop_last() =~= orig.take(n));
                assert(orig.take(n + 1) =~= orig.take(n).push(orig[n]));
                orig.take(n).lemma_filter_push(orig[n], outside_graph(graph));
                assert(outside_graph::<G>(graph)(e) == (e.0.factorgraph_id != graph));
            }
            let ghost before = self@;
            if e.0.factorgraph_id != graph {
                proof {
                    assert forall|k: int| 0 <= k < self@.len() implies (#[trigger] self@[k]).0
                        != e.0 by {
                        let j = choose|j: int|
                            0 <= j < n && (#[trigger] orig[j]).0 == (#[trigger] self@[k]).0;
                        assert(orig[j].0 == self@[k].0);
                    }
                }
                self.entries.push(e);
                proof {
                    assert(self@ == before.push(e));
                                        assert forall|k: int| 0 <= k < self@.len() implies exists|j: int|
                        0 <= j < n + 1 && (#[trigger] orig[j]).0 == (#[trigger] self@[k]).0 by {
                        if k == self@.len() - 1 {
                            assert(orig[n].0 == self@[k].0);
                        } else {
                            let j = choose|j: int|
                                0 <= j < n && (#[trigger] orig[j]).0 == (#[trigger] self@[k]).0;
                            assert(orig[j].0 == self@[k].0);
                        }
                    }
                }
            } else {
                removed = true;
            }
            proof {
                n = n + 1;
                assert(rest@ =~= orig.skip(n));
            }
        }
        proof {
            assert(orig.take(n) =~= orig);
            assert forall|a: int, b: int|
                0 <= a < self.keys().len() && 0 <= b < self.keys().len() && a != b implies self.keys()[a]
                != self.keys()[b] by {
                assert(self.keys()[a] == self@[a].0 && self.keys()[b] == self@[b].0);
            }
        }
        if removed {
            Ok(())
        } else {
            Err(RemoveConnectionToError)
        }
    }

    proof fn lemma_unique_index(&self, factor: FactorId)
        requires
            self.wf(),
        ensures
            forall|i: int, j: int|
                0 <= i < self@.len() && 0 <= j < self@.len() && (#[trigger] self@[i]).0 == factor
                    && (#[trigger] self@[j]).0 == factor ==> i == j,
    {
        assert forall|i: int, j: int|
            0 <= i < self@.len() && 0 <= j < self@.len() && (#[trigger] self@[i]).0 == factor
                && (#[trigger] self@[j]).0 == factor implies i == j by {
            assert(self.keys()[i] == factor && self.keys()[j] == factor);
        }
    }

    proof fn lemma_unique_index_all(&self)
        requires
            self.wf(),
        ensures
            forall|a: int, b: int|
                0 <= a < self@.len() && 0 <= b < self@.len() && (#[trigger] self@[a]).0 == (
                #[trigger] self@[b]).0 ==> a == b,
    {
        assert forall|a: int, b: int|
            0 <= a < self@.len() && 0 <= b < self@.len() && (#[trigger] self@[a]).0 == (
            #[trigger] self@[b]).0 implies a == b by {
            assert(self.keys()[a] == self@[a].0 && self.keys()[b] == self@[b].0);
        }
    }

    /// Fold the payload of every message that carries information into
    /// `prior` with `sum`, in order; the empty messages are skipped. With no
    /// informative message the result is `prior` itself.
    pub fn fold_payloads<F: Fn(G, &G) -> G>(&self, prior: G, sum: F) -> (r: G)
        requires
            forall|a: G, b: &G| #[trigger] sum.requires((a, b)),
        ensures
            exists|steps: Seq<G>| #[trigger]
                fold_steps(sum, prior, payloads_of(self@), steps) && steps.last() == r,
            payloads_of(self@).len() == 0 ==> r == prior,
    {
        let mut acc = prior;
        let ghost mut steps: Seq<G> = seq![prior];
        let mut i: usize = 0;
        while i < self.entries.len()
            invariant
                0 <= i <= self@.len(),
                forall|a: G, b: &G| #[trigger] sum.requires((a, b)),
                fold_steps(sum, prior, payloads_of(self@.take(i as int)), steps),
                steps.last() == acc,
            decreases self@.len() - i,
        {
            proof {
                assert(self@.take(i + 1).drop_last() =~= self@.take(i as int));
                assert(self@.take(i + 1).last() == self@[i as int]);
            }
            match self.entries[i].1.payload() {
                Some(g) => {
                    let ghost mid = acc;
                    acc = sum(acc, g);
                    proof {
                        let before = payloads_of(self@.take(i as int));
                        let items = payloads_of(self@.take(i + 1));
                        assert(items == before.push(*g));
                        let old_steps = steps;
                        steps = steps.push(acc);
                        assert forall|k: int| 0 <= k < items.len() implies sum.ensures(
                            (steps[k], &items[k]),
                            #[trigger] steps[k + 1],
                        ) by {
                            if k < before.len() {
                                assert(steps[k] == old_steps[k] && steps[k + 1] == old_steps[k + 1]);
                                assert(items[k] == before[k]);
                            } else {
                                assert(steps[k] == mid);
                                assert(items[k] == *g);
                            }
                        }
                    }
                },
                None => {
                    assert(payloads_of(self@.take(i + 1)) == payloads_of(self@.take(i as int)));
                },
            }
            i = i + 1;
        }
        proof {
            assert(self@.take(i as int) =~= self@);
        }
        acc
    }

    /// For each connected factor, in order, the response that `respond`
    /// makes to the message stored from it: from `None` for an empty message,
    /// from the payload otherwise.
    pub fn responses<R, F: Fn(Option<&G>) -> R>(&self, respond: F) -> (r: Vec<(FactorId, R)>)
        requires
            forall|p: Option<&G>| #[trigger] respond.requires((p,)),
        ensures
            r@.len() == self@.len(),
            forall|i: int|
                0 <= i < r@.len() ==> (#[trigger] r@[i]).0 == self@[i].0 && respond.ensures(
                    (self@[i].1.payload_ref(),),
                    r@[i].1,
                ),
    {
        let mut r: Vec<(FactorId, R)> = Vec::new();
        let mut i: usize = 0;
        while i < self.entries.len()
            invariant
                0 <= i <= self@.len(),
                r@.len() == i,
                forall|p: Option<&G>| #[trigger] respond.requires((p,)),
                forall|k: int|
                    0 <= k < i ==> (#[trigger] r@[k]).0 == self@[k].0 && respond.ensures(
                        (self@[k].1.payload_ref(),),
                        r@[k].1,
                    ),
            decreases self@.len() - i,
        {
            let entry = &self.entries[i];
            let response = respond(entry.1.payload());
            r.push((entry.0, response));
            i = i + 1;
        }
        r
    }
}

} // verus!
