use vstd::prelude::*;

use crate::error::KanError;
use crate::matrix::Matrix;
use crate::node::{pairs, triples, Node};
use crate::vector::Vector;

verus! {

/// An ordered collection of nodes that are evaluated together.
#[derive(Debug, Clone, PartialEq)]
pub struct Layer {
    pub nodes: Vec<Node>,
}

/// The rows of a list of `Vec`s as sequences.
pub open spec fn nested<A>(v: Seq<Vec<A>>) -> Seq<Seq<A>> {
    v.map_values(|x: Vec<A>| x@)
}

impl Layer {
    /// The input has one row per node and row `i` has one entry per
    /// incoming edge of node `i`.
    pub open spec fn fits<T>(&self, input: Seq<Seq<T>>) -> bool {
        &&& input.len() == self.nodes@.len()
        &&& forall|i: int|
            0 <= i < input.len() ==> #[trigger] input[i].len() == self.nodes@[i].incoming@.len()
    }

    /// For each node, its incoming edges paired with the entries of its row.
    pub open spec fn routed<T>(&self, input: Seq<Seq<T>>) -> Seq<Seq<(usize, T)>> {
        Seq::new(self.nodes@.len(), |i: int| pairs(self.nodes@[i].incoming@, input[i]))
    }

    /// For each node, its incoming edges with the entries of its row and the
    /// node's upstream gradient.
    pub open spec fn routed_backward<T>(&self, input: Seq<Seq<T>>, upstream: Seq<T>) -> Seq<
        Seq<(usize, T, T)>,
    > {
        Seq::new(
            self.nodes@.len(),
            |i: int| triples(self.nodes@[i].incoming@, input[i], upstream[i]),
        )
    }

    /// Every edge index of every node is below `count`.
    pub open spec fn links_below(&self, count: nat) -> bool {
        forall|i: int| 0 <= i < self.nodes@.len() ==> (#[trigger] self.nodes@[i]).links_below(count)
    }

    /// The backward routing visits the pairs of the forward routing, edge
    /// and parameter, in the same order, and gives each the upstream
    /// gradient of its node unchanged: every edge's gradient is taken at the
    /// point where the edge was evaluated.
    pub proof fn lemma_backward_follows_forward<T>(
        &self,
        input: Seq<Seq<T>>,
        upstream: Seq<T>,
    )
        requires
            self.fits(input),
            upstream.len() == self.nodes@.len(),
        ensures
            self.routed_backward(input, upstream).len() == self.routed(input).len(),
            forall|i: int|
                0 <= i < self.nodes@.len() ==> (#[trigger] self.routed_backward(input, upstream)[i]).len()
                    == self.routed(input)[i].len(),
            forall|i: int, j: int|
                0 <= i < self.nodes@.len() && 0 <= j < self.nodes@[i].incoming@.len() ==> {
                    let b = #[trigger] self.routed_backward(input, upstream)[i][j];
                    let f = self.routed(input)[i][j];
                    b == (f.0, f.1, upstream[i])
                },
    {
    }

    /// A layer with the given nodes.
    pub fn new(nodes: Vec<Node>) -> (r: Layer)
        ensures
            r.nodes@ == nodes@,
    {
        Layer { nodes }
    }

    /// Appends `node` at the end.
    pub fn add_node(&mut self, node: Node)
        ensures
            final(self).nodes@ == old(self).nodes@.push(node),
    {
        self.nodes.push(node);
    }

    /// The routing of a forward pass: for node `i`, each incoming edge with
    /// its entry of row `i`. Refused when the row count differs from the
    /// node count or a row's length from its node's fan-in.
    pub fn route_forward<T: Copy>(&self, input: &Matrix<T>) -> (r: Result<
        Vec<Vec<(usize, T)>>,
        KanError,
    >)
        ensures
            !self.fits(input@) ==> r == Err::<Vec<Vec<(usize, T)>>, KanError>(
                KanError::ShapeMismatch,
            ),
            self.fits(input@) ==> (r matches Ok(p) && nested(p@) == self.routed(input@)),
    {
        if input.rows.len() != self.nodes.len() {
            return Err(KanError::ShapeMismatch);
        }
        let mut out: Vec<Vec<(usize, T)>> = Vec::with_capacity(self.nodes.len());
        let mut i: usize = 0;
        while i < self.nodes.len()
            invariant
                i <= self.nodes@.len(),
                input@.len() == self.nodes@.len(),
                out@.len() == i,
                forall|k: int|
                    0 <= k < i ==> #[trigger] input@[k].len() == self.nodes@[k].incoming@.len(),
                forall|k: int|
                    0 <= k < i ==> (#[trigger] out@[k])@ == pairs(
                        self.nodes@[k].incoming@,
                        input@[k],
                    ),
            decreases self.nodes@.len() - i,
        {
            assert(input@[i as int] == input.rows@[i as int]@);
            match self.nodes[i].route(&input.rows[i]) {
                Ok(p) => {
                    out.push(p);
                },
                Err(e) => {
                    return Err(e);
                },
            }
            i = i + 1;
        }
        assert(nested(out@) =~= self.routed(input@));
        Ok(out)
    }

    /// The routing of a backward pass: for node `i`, each incoming edge with
    /// its entry of row `i` and `upstream[i]`. Refused when the row count or
    /// the gradient length differs from the node count, or a row's length
    /// from its node's fan-in.
    pub fn route_backward<T: Copy>(&self, input: &Matrix<T>, upstream: &Vector<T>) -> (r: Result<
        Vec<Vec<(usize, T, T)>>,
        KanError,
    >)
        ensures
            !(self.fits(input@) && upstream@.len() == self.nodes@.len()) ==> r == Err::<
                Vec<Vec<(usize, T, T)>>,
                KanError,
            >(KanError::ShapeMismatch),
            self.fits(input@) && upstream@.len() == self.nodes@.len() ==> (r matches Ok(p)
                && nested(p@) == self.routed_backward(input@, upstream@)),
    {
        if input.rows.len() != self.nodes.len() {
            return Err(KanError::ShapeMismatch);
        }
        if upstream.elements.len() != self.nodes.len() {
            return Err(KanError::ShapeMismatch);
        }
        let mut out: Vec<Vec<(usize, T, T)>> = Vec::with_capacity(self.nodes.len());
        let mut i: usize = 0;
        while i < self.nodes.len()
            invariant
                i <= self.nodes@.len(),
                input@.len() == self.nodes@.len(),
                upstream@.len() == self.nodes@.len(),
                out@.len() == i,
                forall|k: int|
                    0 <= k < i ==> #[trigger] input@[k].len() == self.nodes@[k].incoming@.len(),
                forall|k: int|
                    0 <= k < i ==> (#[trigger] out@[k])@ == triples(
                        self.nodes@[k].incoming@,
                        input@[k],
                        upstream@[k],
                    ),
            decreases self.nodes@.len() - i,
        {
            assert(input@[i as int] == input.rows@[i as int]@);
            match self.nodes[i].route_backward(&input.rows[i], upstream.elements[i]) {
                Ok(p) => {
                    out.push(p);
                },
                Err(e) => {
                    return Err(e);
                },
            }
            i = i + 1;
        }
        assert(nested(out@) =~= self.routed_backward(input@, upstream@));
        Ok(out)
    }

    /// The output of a forward pass from the nodes' values: row `i` holds
    /// `values[i]` once per outgoing edge of node `i`. Refused unless there
    /// is one value per node.
    pub fn broadcast<T: Copy>(&self, values: &Vector<T>) -> (r: Result<Matrix<T>, KanError>)
        ensures
            values@.len() != self.nodes@.len() ==> r == Err::<Matrix<T>, KanError>(
                KanError::ShapeMismatch,
            ),
            values@.len() == self.nodes@.len() ==> (r matches Ok(m) && m@ == Seq::new(
                self.nodes@.len(),
                |i: int| Seq::new(self.nodes@[i].outgoing@.len(), |_j: int| values@[i]),
            )),
    {
        if values.elements.len() != self.nodes.len() {
            return Err(KanError::ShapeMismatch);
        }
        let ghost target = Seq::new(
            self.nodes@.len(),
            |i: int| Seq::new(self.nodes@[i].outgoing@.len(), |_j: int| values@[i]),
        );
        let mut rows: Vec<Vector<T>> = Vec::with_capacity(self.nodes.len());
        let mut i: usize = 0;
        while i < self.nodes.len()
            invariant
                i <= self.nodes@.len(),
                values@.len() == self.nodes@.len(),
                rows@.len() == i,
                target == Seq::new(
                    self.nodes@.len(),
                    |i: int| Seq::new(self.nodes@[i].outgoing@.len(), |_j: int| values@[i]),
                ),
                forall|k: int| 0 <= k < i ==> (#[trigger] rows@[k])@ == target[k],
            decreases self.nodes@.len() - i,
        {
            let row = Vector::filled(self.nodes[i].outgoing.len(), values.elements[i]);
            assert(row@ =~= target[i as int]);
            rows.push(row);
            i = i + 1;
        }
        let m = Matrix { rows };
        assert(m@ =~= target);
        Ok(m)
    }
}

} // verus!
