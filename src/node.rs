use vstd::prelude::*;

use crate::error::KanError;
use crate::vector::Vector;

verus! {

/// A summation point of the network. Edges live in the network's arena;
/// a node refers to them by index, so one edge can be the outgoing edge of
/// one node and the incoming edge of another.
#[derive(Debug, Clone, PartialEq)]
pub struct Node {
    /// Arena indices of the edges that feed this node, one per input.
    pub incoming: Vec<usize>,
    /// Arena indices of the edges that carry this node's value onward.
    pub outgoing: Vec<usize>,
    /// The index of the layer the node belongs to.
    pub layer: usize,
}

/// Each edge of `edges` paired with the value at the same position.
pub open spec fn pairs<T>(edges: Seq<usize>, values: Seq<T>) -> Seq<(usize, T)> {
    Seq::new(edges.len(), |j: int| (edges[j], values[j]))
}

/// Each edge of `edges` with the value at the same position and the
/// shared upstream gradient `g`.
pub open spec fn triples<T>(edges: Seq<usize>, values: Seq<T>, g: T) -> Seq<(usize, T, T)> {
    Seq::new(edges.len(), |j: int| (edges[j], values[j], g))
}

impl Node {
    /// Every edge index of the node is below `count`.
    pub open spec fn links_below(&self, count: nat) -> bool {
        &&& forall|k: int| 0 <= k < self.incoming@.len() ==> #[trigger] self.incoming@[k] < count
        &&& forall|k: int| 0 <= k < self.outgoing@.len() ==> #[trigger] self.outgoing@[k] < count
    }

    /// A node with the given edges and layer index.
    pub fn new(incoming: Vec<usize>, outgoing: Vec<usize>, layer: usize) -> (r: Node)
        ensures
            r.incoming@ == incoming@,
            r.outgoing@ == outgoing@,
            r.layer == layer,
    {
        Node { incoming, outgoing, layer }
    }

    /// Appends `edge` to the incoming edges.
    pub fn add_incoming(&mut self, edge: usize)
        ensures
            final(self).incoming@ == old(self).incoming@.push(edge),
            final(self).outgoing@ == old(self).outgoing@,
            final(self).layer == old(self).layer,
    {
        self.incoming.push(edge);
    }

    /// Appends `edge` to the outgoing edges.
    pub fn add_outgoing(&mut self, edge: usize)
        ensures
            final(self).outgoing@ == old(self).outgoing@.push(edge),
            final(self).incoming@ == old(self).incoming@,
            final(self).layer == old(self).layer,
    {
        self.outgoing.push(edge);
    }

    /// Pairs incoming edge `j` with `inputs[j]`: the parameter at which that
    /// edge is evaluated when the node computes its value, the sum over
    /// these pairs. Inputs of another length are refused.
    pub fn route<T: Copy>(&self, inputs: &Vector<T>) -> (r: Result<Vec<(usize, T)>, KanError>)
        ensures
            inputs@.len() != self.incoming@.len() ==> r == Err::<Vec<(usize, T)>, KanError>(
                KanError::ShapeMismatch,
            ),
            inputs@.len() == self.incoming@.len() ==> (r matches Ok(p) && p@ == pairs(
                self.incoming@,
                inputs@,
            )),
    {
        if inputs.elements.len() != self.incoming.len() {
            return Err(KanError::ShapeMismatch);
        }
        let mut out: Vec<(usize, T)> = Vec::with_capacity(self.incoming.len());
        let mut j: usize = 0;
        while j < self.incoming.len()
            invariant
                j <= self.incoming@.len(),
                inputs@.len() == self.incoming@.len(),
                out@ == pairs(self.incoming@.subrange(0, j as int), inputs@),
            decreases self.incoming@.len() - j,
        {
            out.push((self.incoming[j], inputs.elements[j]));
            j = j + 1;
            assert(out@ =~= pairs(self.incoming@.subrange(0, j as int), inputs@));
        }
        assert(self.incoming@.subrange(0, j as int) =~= self.incoming@);
        Ok(out)
    }

    /// Pairs incoming edge `j` with `inputs[j]` and the node's upstream
    /// gradient, which every incoming edge receives unchanged. Inputs of
    /// another length are refused.
    pub fn route_backward<T: Copy>(&self, inputs: &Vector<T>, upstream: T) -> (r: Result<
        Vec<(usize, T, T)>,
        KanError,
    >)
        ensures
            inputs@.len() != self.incoming@.len() ==> r == Err::<Vec<(usize, T, T)>, KanError>(
                KanError::ShapeMismatch,
            ),
            inputs@.len() == self.incoming@.len() ==> (r matches Ok(p) && p@ == triples(
                self.incoming@,
                inputs@,
                upstream,
            )),
    {
        if inputs.elements.len() != self.incoming.len() {
            return Err(KanError::ShapeMismatch);
        }
        let mut out: Vec<(usize, T, T)> = Vec::with_capacity(self.incoming.len());
        let mut j: usize = 0;
        while j < self.incoming.len()
            invariant
                j <= self.incoming@.len(),
                inputs@.len() == self.incoming@.len(),
                out@ == triples(self.incoming@.subrange(0, j as int), inputs@, upstream),
            decreases self.incoming@.len() - j,
        {
            out.push((self.incoming[j], inputs.elements[j], upstream));
            j = j + 1;
            assert(out@ =~= triples(self.incoming@.subrange(0, j as int), inputs@, upstream));
        }
        assert(self.incoming@.subrange(0, j as int) =~= self.incoming@);
        Ok(out)
    }
}

} // verus!
