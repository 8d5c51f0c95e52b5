use vstd::prelude::*;

use crate::error::KanError;
use crate::layer::{nested, Layer};
use crate::matrix::Matrix;
use crate::node::Node;
use crate::vector::{fold_to, Vector};

verus! {

/// A Kolmogorov-Arnold network: an arena of edges of type `E` and an
/// ordered list of layers whose nodes refer to the edges by index.
#[derive(Debug, Clone)]
pub struct KAN<E> {
    pub edges: Vec<E>,
    pub layers: Vec<Layer>,
}

/// Arena index of the edge from input `i` to hidden node `j` in the
/// standard network with `m` hidden nodes.
pub open spec fn input_edge(m: int, i: int, j: int) -> int {
    i * m + j
}

/// Arena index of the edge from hidden node `j` to the output node in the
/// standard network with `n` inputs and `m` hidden nodes.
pub open spec fn output_edge(n: int, m: int, j: int) -> int {
    n * m + j
}

/// The incoming edges of hidden node `j`, one per input in input order.
pub open spec fn hidden_incoming(n: int, m: int, j: int) -> Seq<usize> {
    Seq::new(n as nat, |i: int| input_edge(m, i, j) as usize)
}

/// The incoming edges of the output node, one per hidden node in order.
pub open spec fn output_incoming(n: int, m: int) -> Seq<usize> {
    Seq::new(m as nat, |j: int| output_edge(n, m, j) as usize)
}

/// Every layer of `layers` refers only to edges below `count`.
pub open spec fn layers_below(layers: Seq<Layer>, count: nat) -> bool {
    forall|l: int| 0 <= l < layers.len() ==> (#[trigger] layers[l]).links_below(count)
}

proof fn lemma_grid_index(n: int, m: int, i: int, j: int)
    requires
        0 <= i < n,
        0 <= j < m,
    ensures
        0 <= i * m + j < n * m,
        i * m + j + 1 <= n * m,
{
    assert(0 <= i * m) by (nonlinear_arith)
        requires
            0 <= i,
            0 <= m,
    ;
    assert(i * m + m <= n * m) by (nonlinear_arith)
        requires
            i + 1 <= n,
            0 <= m,
    ;
}

/// The matrices of `ms` as nested sequences.
pub open spec fn matrices_view<T>(ms: Seq<Matrix<T>>) -> Seq<Seq<Seq<T>>> {
    ms.map_values(|m: Matrix<T>| m@)
}

/// The input of layer `k` in a pass fed with `input` whose layers output
/// `outputs`: the network input for the first layer, else the output of the
/// layer before.
pub open spec fn layer_input<T>(input: Seq<Seq<T>>, outputs: Seq<Seq<Seq<T>>>, k: int) -> Seq<
    Seq<T>,
> {
    if k == 0 {
        input
    } else {
        outputs[k - 1]
    }
}

impl<E> KAN<E> {
    /// The layer that step `j` of a backward walk visits: the last layer
    /// first.
    pub open spec fn walk_layer(&self, j: int) -> int {
        self.layers@.len() - 1 - j
    }

    /// `ups[j]` is the upstream gradient of step `j` of a backward walk that
    /// starts from `initial`: the last layer gets `[initial]`; each earlier
    /// layer gets one entry per node, every entry the same sum under `add`,
    /// from `zero`, of the entries the layer after it got.
    pub open spec fn is_upstream_walk<T, A: Fn(T, T) -> T>(
        &self,
        ups: Seq<Seq<T>>,
        initial: T,
        zero: T,
        add: A,
    ) -> bool {
        &&& ups.len() == self.layers@.len()
        &&& ups.len() > 0 ==> ups[0] == seq![initial]
        &&& forall|j: int|
            1 <= j < ups.len() ==> {
                &&& (#[trigger] ups[j]).len() == self.layers@[self.walk_layer(j)].nodes@.len()
                &&& forall|i: int|
                    0 <= i < ups[j].len() ==> #[trigger] ups[j][i] == ups[j][0] && fold_to(
                        ups[j - 1],
                        zero,
                        add,
                        ups[j][i],
                    )
            }
    }

    /// A backward walk over `input` and the layers' outputs `outputs` finds
    /// every shape in order: the last layer has the single node that the
    /// one-entry initial gradient asks for, and each layer fits its input.
    pub open spec fn backward_fits<T>(&self, input: Seq<Seq<T>>, outputs: Seq<Seq<Seq<T>>>) -> bool {
        &&& self.layers@.len() > 0 ==> self.layers@.last().nodes@.len() == 1
        &&& forall|k: int|
            0 <= k < self.layers@.len() ==> #[trigger] self.layers@[k].fits(
                layer_input(input, outputs, k),
            )
    }

    /// Every node of every layer refers to an edge of the arena.
    pub open spec fn wf(&self) -> bool {
        layers_below(self.layers@, self.edges@.len())
    }

    /// A network over the edge arena `edges` with the given layers; refused
    /// when a node refers to an edge that the arena does not hold.
    pub fn new(edges: Vec<E>, layers: Vec<Layer>) -> (r: Result<KAN<E>, KanError>)
        ensures
            layers_below(layers@, edges@.len()) ==> (r matches Ok(k) && k.edges@ == edges@
                && k.layers@ == layers@ && k.wf()),
            !layers_below(layers@, edges@.len()) ==> r == Err::<KAN<E>, KanError>(
                KanError::IndexOutOfRange,
            ),
    {
        if layer_list_below(&layers, edges.len()) {
            Ok(KAN { edges, layers })
        } else {
            Err(KanError::IndexOutOfRange)
        }
    }

    /// Puts `edge` in the arena and returns its index.
    pub fn add_edge(&mut self, edge: E) -> (r: usize)
        requires
            old(self).edges@.len() < usize::MAX,
        ensures
            r == old(self).edges@.len(),
            final(self).edges@ == old(self).edges@.push(edge),
            final(self).layers@ == old(self).layers@,
            old(self).wf() ==> final(self).wf(),
    {
        let r: usize = self.edges.len();
        self.edges.push(edge);
        assert forall|l: int| old(self).wf() && 0 <= l < self.layers@.len() implies (
        #[trigger] self.layers@[l]).links_below(self.edges@.len()) by {
            let layer = self.layers@[l];
            assert forall|i: int| 0 <= i < layer.nodes@.len() implies (
            #[trigger] layer.nodes@[i]).links_below(self.edges@.len()) by {
                assert(layer.nodes@[i].links_below(old(self).edges@.len()));
            }
        }
        r
    }

    /// Appends `layer`; refused when one of its nodes refers to an edge that
    /// the arena does not hold.
    pub fn add_layer(&mut self, layer: Layer) -> (r: Result<(), KanError>)
        ensures
            layer.links_below(old(self).edges@.len()) ==> r is Ok && final(self).layers@ == old(
                self,
            ).layers@.push(layer) && final(self).edges@ == old(self).edges@,
            !layer.links_below(old(self).edges@.len()) ==> r == Err::<(), KanError>(
                KanError::IndexOutOfRange,
            ) && final(self).layers@ == old(self).layers@ && final(self).edges@ == old(
                self,
            ).edges@,
            old(self).wf() ==> final(self).wf(),
    {
        if layer_below(&layer, self.edges.len()) {
            let ghost before = self.layers@;
            self.layers.push(layer);
            assert forall|l: int| old(self).wf() && 0 <= l < self.layers@.len() implies (
            #[trigger] self.layers@[l]).links_below(self.edges@.len()) by {
                if l < before.len() {
                    assert(self.layers@[l] == before[l]);
                }
            }
            Ok(())
        } else {
            Err(KanError::IndexOutOfRange)
        }
    }

    /// The standard network with `n_inputs` inputs and `n_hidden` hidden
    /// nodes: a hidden layer fully connected from the inputs, and an output
    /// layer of one node fully connected from the hidden layer. Each
    /// connection gets a fresh edge `make(start, end, layer)`, where `start`
    /// and `end` index the connected nodes within their layers and `layer`
    /// is the originating layer (0 for the inputs, 1 for the hidden layer).
    /// The arena holds the input edges first, row by row of inputs, then
    /// the output edges.
    pub fn standard<F: Fn(usize, usize, usize) -> E>(
        n_inputs: usize,
        n_hidden: usize,
        make: F,
    ) -> (r: KAN<E>)
        requires
            n_inputs * n_hidden + n_hidden <= usize::MAX,
            forall|s: usize, e: usize, l: usize| make.requires((s, e, l)),
        ensures
            r.wf(),
            r.edges@.len() == n_inputs * n_hidden + n_hidden,
            forall|i: int, j: int|
                0 <= i < n_inputs && 0 <= j < n_hidden ==> make.ensures(
                    (i as usize, j as usize, 0usize),
                    #[trigger] r.edges@[input_edge(n_hidden as int, i, j)],
                ),
            forall|j: int|
                0 <= j < n_hidden ==> make.ensures(
                    (j as usize, 0usize, 1usize),
                    #[trigger] r.edges@[output_edge(n_inputs as int, n_hidden as int, j)],
                ),
            r.layers@.len() == 2,
            r.layers@[0].nodes@.len() == n_hidden,
            forall|j: int|
                0 <= j < n_hidden ==> {
                    let node = #[trigger] r.layers@[0].nodes@[j];
                    &&& node.incoming@ == hidden_incoming(n_inputs as int, n_hidden as int, j)
                    &&& node.outgoing@ == seq![
                        output_edge(n_inputs as int, n_hidden as int, j) as usize,
                    ]
                    &&& node.layer == 1
                },
            r.layers@[1].nodes@.len() == 1,
            r.layers@[1].nodes@[0].incoming@ == output_incoming(n_inputs as int, n_hidden as int),
            r.layers@[1].nodes@[0].outgoing@.len() == 0,
            r.layers@[1].nodes@[0].layer == 2,
    {
        let n: usize = n_inputs;
        let m: usize = n_hidden;
        let ghost ni = n as int;
        let ghost mi = m as int;
        assert(0 <= ni * mi) by (nonlinear_arith)
            requires
                0 <= ni,
                0 <= mi,
        ;
        let base: usize = n * m;
        let mut edges: Vec<E> = Vec::new();

        let mut i: usize = 0;
        while i < n
            invariant
                i <= n,
                n == n_inputs,
                m == n_hidden,
                ni == n,
                mi == m,
                base == ni * mi,
                base + m <= usize::MAX,
                edges@.len() == input_edge(mi, i as int, 0),
                forall|s: usize, e: usize, l: usize| make.requires((s, e, l)),
                forall|p: int, q: int|
                    0 <= p < i && 0 <= q < m ==> make.ensures(
                        (p as usize, q as usize, 0usize),
                        #[trigger] edges@[input_edge(mi, p, q)],
                    ),
            decreases n - i,
        {
            let mut j: usize = 0;
            while j < m
                invariant
                    i < n,
                    j <= m,
                    n == n_inputs,
                    m == n_hidden,
                    ni == n,
                    mi == m,
                    base == ni * mi,
                    edges@.len() == input_edge(mi, i as int, j as int),
                    forall|s: usize, e: usize, l: usize| make.requires((s, e, l)),
                    forall|p: int, q: int|
                        (0 <= p < i && 0 <= q < m) || (p == i && 0 <= q < j) ==> make.ensures(
                            (p as usize, q as usize, 0usize),
                            #[trigger] edges@[input_edge(mi, p, q)],
                        ),
                decreases m - j,
            {
                let e = make(i, j, 0);
                let ghost before = edges@;
                edges.push(e);
                assert forall|p: int, q: int|
                    (0 <= p < i && 0 <= q < m) || (p == i && 0 <= q < j + 1) implies make.ensures(
                    (p as usize, q as usize, 0usize),
                    #[trigger] edges@[input_edge(mi, p, q)],
                ) by {
                    if p < i {
                        lemma_grid_index(i as int, mi, p, q);
                        assert(edges@[input_edge(mi, p, q)] == before[input_edge(mi, p, q)]);
                    } else if q < j {
                        assert(edges@[input_edge(mi, p, q)] == before[input_edge(mi, p, q)]);
                    }
                }
                j = j + 1;
            }
            assert(input_edge(mi, i as int, mi) == input_edge(mi, i + 1, 0)) by (nonlinear_arith);
            i = i + 1;
        }
        assert(input_edge(mi, ni, 0) == ni * mi);

        let mut j: usize = 0;
        while j < m
            invariant
                j <= m,
                n == n_inputs,
                m == n_hidden,
                ni == n,
                mi == m,
                base == ni * mi,
                base + m <= usize::MAX,
                edges@.len() == base + j,
                forall|s: usize, e: usize, l: usize| make.requires((s, e, l)),
                forall|p: int, q: int|
                    0 <= p < n && 0 <= q < m ==> make.ensures(
                        (p as usize, q as usize, 0usize),
                        #[trigger] edges@[input_edge(mi, p, q)],
                    ),
                forall|q: int|
                    0 <= q < j ==> make.ensures(
                        (q as usize, 0usize, 1usize),
                        #[trigger] edges@[output_edge(ni, mi, q)],
                    ),
            decreases m - j,
        {
            let e = make(j, 0, 1);
            let ghost before = edges@;
            edges.push(e);
            assert forall|p: int, q: int| 0 <= p < n && 0 <= q < m implies make.ensures(
                (p as usize, q as usize, 0usize),
                #[trigger] edges@[input_edge(mi, p, q)],
            ) by {
                lemma_grid_index(ni, mi, p, q);
                assert(edges@[input_edge(mi, p, q)] == before[input_edge(mi, p, q)]);
            }
            assert forall|q: int| 0 <= q < j + 1 implies make.ensures(
                (q as usize, 0usize, 1usize),
                #[trigger] edges@[output_edge(ni, mi, q)],
            ) by {
                if q < j {
                    assert(edges@[output_edge(ni, mi, q)] == before[output_edge(ni, mi, q)]);
                }
            }
            j = j + 1;
        }

        let mut hidden: Vec<Node> = Vec::with_capacity(m);
        let mut j: usize = 0;
        while j < m
            invariant
                j <= m,
                n == n_inputs,
                m == n_hidden,
                ni == n,
                mi == m,
                base == ni * mi,
                base + m <= usize::MAX,
                hidden@.len() == j,
                forall|q: int|
                    0 <= q < j ==> {
                        let node = #[trigger] hidden@[q];
                        &&& node.incoming@ == hidden_incoming(ni, mi, q)
                        &&& node.outgoing@ == seq![output_edge(ni, mi, q) as usize]
                        &&& node.layer == 1
                    },
            decreases m - j,
        {
            let mut incoming: Vec<usize> = Vec::with_capacity(n);
            let mut i: usize = 0;
            while i < n
                invariant
                    i <= n,
                    j < m,
                    ni == n,
                    mi == m,
                    base == ni * mi,
                    base + m <= usize::MAX,
                    incoming@ == Seq::new(i as nat, |p: int| input_edge(mi, p, j as int) as usize),
                decreases n - i,
            {
                proof {
                    lemma_grid_index(ni, mi, i as int, j as int);
                }
                incoming.push(i * m + j);
                i = i + 1;
                assert(incoming@ =~= Seq::new(
                    i as nat,
                    |p: int| input_edge(mi, p, j as int) as usize,
                ));
            }
            let mut outgoing: Vec<usize> = Vec::with_capacity(1);
            outgoing.push(base + j);
            assert(outgoing@ =~= seq![output_edge(ni, mi, j as int) as usize]);
            hidden.push(Node { incoming, outgoing, layer: 1 });
            j = j + 1;
        }

        let mut out_incoming: Vec<usize> = Vec::with_capacity(m);
        let mut j: usize = 0;
        while j < m
            invariant
                j <= m,
                ni == n,
                mi == m,
                base == ni * mi,
                base + m <= usize::MAX,
                out_incoming@ == Seq::new(j as nat, |q: int| output_edge(ni, mi, q) as usize),
            decreases m - j,
        {
            out_incoming.push(base + j);
            j = j + 1;
            assert(out_incoming@ =~= Seq::new(j as nat, |q: int| output_edge(ni, mi, q) as usize));
        }
        let output = Node { incoming: out_incoming, outgoing: Vec::new(), layer: 2 };

        let ghost count = edges@.len();
        let hidden_layer = Layer { nodes: hidden };
        let mut output_nodes: Vec<Node> = Vec::with_capacity(1);
        output_nodes.push(output);
        let output_layer = Layer { nodes: output_nodes };
        assert(hidden_layer.links_below(count)) by {
            assert forall|q: int| 0 <= q < hidden_layer.nodes@.len() implies (
            #[trigger] hidden_layer.nodes@[q]).links_below(count) by {
                let node = hidden_layer.nodes@[q];
                assert forall|k: int| 0 <= k < node.incoming@.len() implies #[trigger] node.incoming@[k]
                    < count by {
                    lemma_grid_index(ni, mi, k, q);
                }
            }
        }
        assert(output_layer.links_below(count)) by {
            assert(output_layer.nodes@[0] == output);
        }
        let mut layers: Vec<Layer> = Vec::with_capacity(2);
        layers.push(hidden_layer);
        layers.push(output_layer);
        let r = KAN { edges, layers };
        assert(r.wf()) by {
            assert forall|l: int| 0 <= l < r.layers@.len() implies (
            #[trigger] r.layers@[l]).links_below(count) by {
                if l == 0 {
                    assert(r.layers@[l] == hidden_layer);
                } else {
                    assert(r.layers@[l] == output_layer);
                }
            }
        }
        r
    }
    /// The routing of a backward pass through the whole network, in walk
    /// order (last layer first). `outputs[k]` is what layer `k` output in the
    /// forward pass; layer `k` is walked over its input (the network input
    /// for the first layer) with its upstream gradient, which starts as
    /// `[initial]` at the last layer; after each layer, the gradient of the
    /// layer before it repeats the sum of the current entries once per node.
    /// Refused when a layer does not fit its input or the last layer does
    /// not have exactly one node.
    pub fn backward_routes<T: Copy, A: Fn(T, T) -> T>(
        &self,
        input: &Matrix<T>,
        outputs: &Vec<Matrix<T>>,
        initial: T,
        zero: T,
        add: &A,
    ) -> (r: Result<Vec<Vec<Vec<(usize, T, T)>>>, KanError>)
        requires
            outputs@.len() == self.layers@.len(),
            forall|x: T, y: T| add.requires((x, y)),
        ensures
            !self.backward_fits(input@, matrices_view(outputs@)) ==> r == Err::<
                Vec<Vec<Vec<(usize, T, T)>>>,
                KanError,
            >(KanError::ShapeMismatch),
            self.backward_fits(input@, matrices_view(outputs@)) ==> (r matches Ok(p) && p@.len()
                == self.layers@.len() && exists|ups: Seq<Seq<T>>|
                #[trigger] self.is_upstream_walk(ups, initial, zero, *add) && forall|j: int|
                    0 <= j < self.layers@.len() ==> nested((#[trigger] p@[j])@)
                        == self.layers@[self.walk_layer(j)].routed_backward(
                        layer_input(input@, matrices_view(outputs@), self.walk_layer(j)),
                        ups[j],
                    )),
    {
        let n_layers: usize = self.layers.len();
        let ghost outs = matrices_view(outputs@);
        let mut out: Vec<Vec<Vec<(usize, T, T)>>> = Vec::with_capacity(n_layers);
        if n_layers == 0 {
            assert(self.is_upstream_walk(Seq::<Seq<T>>::empty(), initial, zero, *add));
            return Ok(out);
        }
        let mut first: Vec<T> = Vec::with_capacity(1);
        first.push(initial);
        let mut upstream: Vector<T> = Vector { elements: first };
        let ghost mut ups: Seq<Seq<T>> = seq![upstream@];
        assert(upstream@ =~= seq![initial]);
        let mut j: usize = 0;
        while j < n_layers
            invariant
                n_layers == self.layers@.len(),
                n_layers > 0,
                outputs@.len() == n_layers,
                outs == matrices_view(outputs@),
                forall|x: T, y: T| add.requires((x, y)),
                j <= n_layers,
                out@.len() == j,
                ups.len() == if j < n_layers {
                    j + 1
                } else {
                    j as int
                },
                j < n_layers ==> upstream@ == ups[j as int],
                j < n_layers ==> upstream@.len() == if j == 0 {
                    1
                } else {
                    self.layers@[self.walk_layer(j as int)].nodes@.len()
                },
                ups[0] == seq![initial],
                j > 0 ==> self.layers@.last().nodes@.len() == 1,
                forall|q: int|
                    1 <= q < ups.len() ==> {
                        &&& (#[trigger] ups[q]).len() == self.layers@[self.walk_layer(
                            q,
                        )].nodes@.len()
                        &&& forall|i: int|
                            0 <= i < ups[q].len() ==> #[trigger] ups[q][i] == ups[q][0] && fold_to(
                                ups[q - 1],
                                zero,
                                *add,
                                ups[q][i],
                            )
                    },
                forall|q: int|
                    0 <= q < j ==> #[trigger] self.layers@[self.walk_layer(q)].fits(
                        layer_input(input@, outs, self.walk_layer(q)),
                    ),
                forall|q: int|
                    0 <= q < j ==> nested((#[trigger] out@[q])@) == self.layers@[self.walk_layer(
                        q,
                    )].routed_backward(layer_input(input@, outs, self.walk_layer(q)), ups[q]),
            decreases n_layers - j,
        {
            let k: usize = n_layers - 1 - j;
            let layer_in: &Matrix<T> = if k == 0 {
                input
            } else {
                &outputs[k - 1]
            };
            assert(layer_in@ == layer_input(input@, outs, k as int));
            match self.layers[k].route_backward(layer_in, &upstream) {
                Ok(p) => {
                    out.push(p);
                },
                Err(e) => {
                    proof {
                        if j == 0 {
                            if self.layers@[k as int].fits(layer_in@) {
                                assert(self.layers@.last() == self.layers@[k as int]);
                            }
                        } else {
                            assert(!self.layers@[k as int].fits(layer_in@));
                        }
                    }
                    return Err(e);
                },
            }
            proof {
                if j == 0 {
                    assert(self.layers@.last() == self.layers@[k as int]);
                }
            }
            if k > 0 {
                let total = upstream.fold(zero, add);
                let next = Vector::filled(self.layers[k - 1].nodes.len(), total);
                proof {
                    let before = ups;
                    ups = ups.push(next@);
                    assert forall|q: int| 1 <= q < ups.len() implies {
                        &&& (#[trigger] ups[q]).len() == self.layers@[self.walk_layer(
                            q,
                        )].nodes@.len()
                        &&& forall|i: int|
                            0 <= i < ups[q].len() ==> #[trigger] ups[q][i] == ups[q][0] && fold_to(
                                ups[q - 1],
                                zero,
                                *add,
                                ups[q][i],
                            )
                    } by {
                        if q < before.len() {
                            assert(ups[q] == before[q] && ups[q - 1] == before[q - 1]);
                        } else {
                            assert(ups[q] == next@ && ups[q - 1] == upstream@);
                        }
                    }
                    assert(ups[0] == before[0]);
                }
                upstream = next;
            }
            j = j + 1;
        }
        proof {
            assert(self.is_upstream_walk(ups, initial, zero, *add));
            assert forall|k: int| 0 <= k < self.layers@.len() implies #[trigger] self.layers@[k].fits(
                layer_input(input@, outs, k),
            ) by {
                let q = n_layers - 1 - k;
                assert(self.walk_layer(q) == k);
                assert(self.layers@[self.walk_layer(q)].fits(
                    layer_input(input@, outs, self.walk_layer(q)),
                ));
            }
            assert(self.backward_fits(input@, outs));
        }
        Ok(out)
    }
}

/// Whether every node of `layer` refers only to edges below `count`.
pub fn layer_below(layer: &Layer, count: usize) -> (r: bool)
    ensures
        r == layer.links_below(count as nat),
{
    let mut i: usize = 0;
    while i < layer.nodes.len()
        invariant
            i <= layer.nodes@.len(),
            forall|q: int| 0 <= q < i ==> (#[trigger] layer.nodes@[q]).links_below(count as nat),
        decreases layer.nodes@.len() - i,
    {
        let node = &layer.nodes[i];
        let mut k: usize = 0;
        while k < node.incoming.len()
            invariant
                k <= node.incoming@.len(),
                i < layer.nodes@.len(),
                *node == layer.nodes@[i as int],
                forall|p: int| 0 <= p < k ==> #[trigger] node.incoming@[p] < count,
            decreases node.incoming@.len() - k,
        {
            if node.incoming[k] >= count {
                assert(layer.nodes@[i as int].incoming@[k as int] >= count);
                assert(!layer.nodes@[i as int].links_below(count as nat));
                return false;
            }
            k = k + 1;
        }
        let mut k: usize = 0;
        while k < node.outgoing.len()
            invariant
                k <= node.outgoing@.len(),
                i < layer.nodes@.len(),
                *node == layer.nodes@[i as int],
                forall|p: int| 0 <= p < k ==> #[trigger] node.outgoing@[p] < count,
            decreases node.outgoing@.len() - k,
        {
            if node.outgoing[k] >= count {
                assert(layer.nodes@[i as int].outgoing@[k as int] >= count);
                assert(!layer.nodes@[i as int].links_below(count as nat));
                return false;
            }
            k = k + 1;
        }
        i = i + 1;
    }
    true
}

/// Whether every layer of `layers` refers only to edges below `count`.
pub fn layer_list_below(layers: &Vec<Layer>, count: usize) -> (r: bool)
    ensures
        r == layers_below(layers@, count as nat),
{
    let mut l: usize = 0;
    while l < layers.len()
        invariant
            l <= layers@.len(),
            forall|q: int| 0 <= q < l ==> (#[trigger] layers@[q]).links_below(count as nat),
        decreases layers@.len() - l,
    {
        if !layer_below(&layers[l], count) {
            return false;
        }
        l = l + 1;
    }
    true
}

} // verus!
