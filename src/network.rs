use vstd::prelude::*;

use crate::matrix::{copy_vec, dot_gives, Matrix, ShapeError};

verus! {

/// Why a layer topology was refused.
#[derive(Debug, Clone, Copy, PartialEq, Eq, Structural)]
pub enum TopologyError {
    /// Fewer than an input and an output layer.
    TooFewLayers,
    /// A layer with no neuron.
    EmptyLayer,
}

/// Why a batch of training samples was refused.
#[derive(Debug, Clone, Copy, PartialEq, Eq, Structural)]
pub enum DataShapeError {
    /// No sample at all.
    Empty,
    /// Not one target per input.
    CountMismatch,
    /// An input whose length is not the input layer's size.
    InputLength,
    /// A target whose length is not the output layer's size.
    TargetLength,
}

/// A fully connected feedforward network.
///
/// `weights[n]` maps layer `n` to layer `n + 1`; `data` records the activations of the last forward pass.
pub struct Network<T> {
    pub layers: Vec<usize>,
    pub weights: Vec<Matrix<T>>,
    pub biases: Vec<Matrix<T>>,
    pub data: Vec<Matrix<T>>,
}

/// A topology has an input and an output layer, and no empty layer.
pub open spec fn valid_topology(layers: Seq<usize>) -> bool {
    layers.len() >= 2 && forall|i: int| 0 <= i < layers.len() ==> #[trigger] layers[i] > 0
}

/// Every weight matrix of the topology can be addressed in memory.
pub open spec fn sizes_fit(layers: Seq<usize>) -> bool {
    forall|n: int| 0 <= n < layers.len() - 1 ==> layers[n + 1] * #[trigger] layers[n] <= usize::MAX
}

/// `m` is a column vector of `n` values.
pub open spec fn is_column(m: Matrix<impl Sized>, n: int) -> bool {
    m.wf() && m.rows == n && m.columns == 1
}

/// `y` is what one layer gives on the values `x`: `act(dot(w_i, x) + b_i)` for each neuron `i`.
pub open spec fn layer_step<T, D: Fn(Vec<T>, Vec<T>) -> T, P: Fn(T, T) -> T, A: Fn(T) -> T>(
    w: Matrix<T>,
    b: Matrix<T>,
    x: Seq<T>,
    y: Matrix<T>,
    dot: D,
    plus: P,
    act: A,
) -> bool {
    &&& is_column(y, w.rows as int)
    &&& forall|i: int| 0 <= i < w.rows ==> #[trigger] neuron_gives(w, b, x, i, dot, plus, act, y.data@[i])
}

/// Neuron `i` of the layer with weights `w` and biases `b` may give `out` on the values `x`.
pub open spec fn neuron_gives<T, D: Fn(Vec<T>, Vec<T>) -> T, P: Fn(T, T) -> T, A: Fn(T) -> T>(
    w: Matrix<T>,
    b: Matrix<T>,
    x: Seq<T>,
    i: int,
    dot: D,
    plus: P,
    act: A,
    out: T,
) -> bool {
    exists|z: T, s: T|
        dot_gives(dot, w.row_of(i), x, z) && #[trigger] plus.ensures((z, b.data@[i]), s)
            && #[trigger] act.ensures((s,), out)
}

/// `out` may be `deriv(y) * e * rate`, computed with `times`.
pub open spec fn gradient_cell<T, G: Fn(T) -> T, M: Fn(T, T) -> T>(
    y: T,
    e: T,
    rate: T,
    deriv: G,
    times: M,
    out: T,
) -> bool {
    exists|d: T, h: T| #[trigger] deriv.ensures((y,), d) && #[trigger] times.ensures((d, e), h)
        && times.ensures((h, rate), out)
}

/// `g` holds the gradient of each value of the layer output `y` with the errors `e`.
pub open spec fn gradient_of<T, G: Fn(T) -> T, M: Fn(T, T) -> T>(
    y: Matrix<T>,
    e: Matrix<T>,
    rate: T,
    deriv: G,
    times: M,
    g: Matrix<T>,
) -> bool {
    &&& is_column(g, y.rows as int)
    &&& forall|i: int| 0 <= i < y.rows ==> #[trigger] gradient_cell(y.data@[i], e.data@[i], rate, deriv, times, g.data@[i])
}

/// `e_prev` is the errors `e` carried back through `w`: value `j` is `dot` of column `j` of `w` and `e`.
pub open spec fn carried_back<T, D: Fn(Vec<T>, Vec<T>) -> T>(w: Matrix<T>, e: Matrix<T>, dot: D, e_prev: Matrix<T>) -> bool {
    &&& is_column(e_prev, w.columns as int)
    &&& forall|j: int| 0 <= j < w.columns ==> dot_gives(dot, w.column_of(j), e.data@, #[trigger] e_prev.data@[j])
}

/// Cell `(i, j)` of `w_new` may be cell `(i, j)` of `w` plus `dot` of gradient `i` and input `j`.
pub open spec fn weight_cell<T, D: Fn(Vec<T>, Vec<T>) -> T, P: Fn(T, T) -> T>(
    w: Matrix<T>,
    g: Matrix<T>,
    x: Matrix<T>,
    dot: D,
    plus: P,
    w_new: Matrix<T>,
    i: int,
    j: int,
) -> bool {
    exists|z: T| dot_gives(dot, seq![g.data@[i]], seq![x.data@[j]], z) && #[trigger] plus.ensures((w.at(i, j), z), w_new.at(i, j))
}

/// `w_new` is `w` plus the outer product of the gradient `g` and the layer input `x`.
pub open spec fn weights_updated<T, D: Fn(Vec<T>, Vec<T>) -> T, P: Fn(T, T) -> T>(
    w: Matrix<T>,
    g: Matrix<T>,
    x: Matrix<T>,
    dot: D,
    plus: P,
    w_new: Matrix<T>,
) -> bool {
    &&& w_new.wf()
    &&& w_new.same_shape(&w)
    &&& forall|i: int, j: int| 0 <= i < w.rows && 0 <= j < w.columns ==> #[trigger] weight_cell(w, g, x, dot, plus, w_new, i, j)
}

/// The output of layer `n + 1` in the pass that backpropagation starts from: the given output for the last
/// layer, the recorded activations before it.
pub open spec fn layer_output<T>(net: Network<T>, output: Matrix<T>, n: int) -> Matrix<T> {
    if n == net.depth() - 2 {
        output
    } else {
        net.data@[n + 1]
    }
}

/// One backpropagation step from `before` to `after`: `es[n]` are the errors at the output of transition `n`
/// (target minus output for the last one, carried back through the old weights for the others), `gs[n]` its
/// gradients, added to the biases and, times the transition's input, to the weights.
pub open spec fn backprop_trace<
    T,
    S: Fn(T, T) -> T,
    M: Fn(T, T) -> T,
    G: Fn(T) -> T,
    D: Fn(Vec<T>, Vec<T>) -> T,
    P: Fn(T, T) -> T,
>(
    before: Network<T>,
    after: Network<T>,
    output: Matrix<T>,
    target: Matrix<T>,
    rate: T,
    minus: S,
    times: M,
    deriv: G,
    dot: D,
    plus: P,
    es: Seq<Matrix<T>>,
    gs: Seq<Matrix<T>>,
) -> bool {
    let count = before.depth() - 1;
    &&& es.len() == count
    &&& gs.len() == count
    &&& es[count - 1].is_zip_of(&target, &output, minus)
    &&& forall|n: int| 0 <= n < count - 1 ==> carried_back(before.weights@[n + 1], es[n + 1], dot, #[trigger] es[n])
    &&& forall|n: int| 0 <= n < count ==> gradient_of(layer_output(before, output, n), es[n], rate, deriv, times, #[trigger] gs[n])
    &&& forall|n: int| 0 <= n < count ==> weights_updated(before.weights@[n], gs[n], before.data@[n], dot, plus, #[trigger] after.weights@[n])
    &&& forall|n: int| 0 <= n < count ==> (#[trigger] after.biases@[n]).is_zip_of(&before.biases@[n], &gs[n], plus)
}

impl<T> Network<T> {
    /// The number of layers.
    pub open spec fn depth(&self) -> int {
        self.layers@.len() as int
    }

    /// The size of the output layer.
    pub open spec fn output_size(&self) -> int {
        self.layers@[self.depth() - 1] as int
    }

    /// Topology, weights and biases agree.
    pub open spec fn wf(&self) -> bool {
        &&& valid_topology(self.layers@)
        &&& self.weights@.len() == self.depth() - 1
        &&& self.biases@.len() == self.depth() - 1
        &&& forall|n: int| 0 <= n < self.depth() - 1 ==> {
            &&& (#[trigger] self.weights@[n]).wf()
            &&& self.weights@[n].rows == self.layers@[n + 1]
            &&& self.weights@[n].columns == self.layers@[n]
        }
        &&& forall|n: int| 0 <= n < self.depth() - 1 ==> is_column(#[trigger] self.biases@[n], self.layers@[n + 1] as int)
    }

    /// `data` holds one column vector per layer, of that layer's size.
    pub open spec fn recorded(&self) -> bool {
        &&& self.data@.len() == self.depth()
        &&& forall|n: int| 0 <= n < self.depth() ==> is_column(#[trigger] self.data@[n], self.layers@[n] as int)
    }

    /// `data` is the forward pass of `input` through the network with `dot`, `plus` and `act`.
    pub open spec fn passed<D: Fn(Vec<T>, Vec<T>) -> T, P: Fn(T, T) -> T, A: Fn(T) -> T>(
        &self,
        input: Seq<T>,
        dot: D,
        plus: P,
        act: A,
    ) -> bool {
        &&& self.data@.len() == self.depth()
        &&& is_column(self.data@[0], self.layers@[0] as int)
        &&& self.data@[0].data@ == input
        &&& forall|n: int| 0 <= n < self.depth() - 1 ==> layer_step(
            self.weights@[n],
            self.biases@[n],
            self.data@[n].data@,
            #[trigger] self.data@[n + 1],
            dot,
            plus,
            act,
        )
    }
}

impl<T: Copy> Network<T> {
    /// A network with the given layer sizes, whose weights and biases are filled by successive draws.
    pub fn new<F: Fn() -> T>(layers: Vec<usize>, draw: F) -> (r: Result<Network<T>, TopologyError>)
        requires
            sizes_fit(layers@),
            draw.requires(()),
        ensures
            r is Ok <==> valid_topology(layers@),
            r is Err ==> (r->Err_0 == TopologyError::TooFewLayers <==> layers@.len() < 2),
            r is Ok ==> ({
                let net = r->Ok_0;
                &&& net.wf()
                &&& net.layers@ == layers@
                &&& net.data@.len() == 0
                &&& forall|n: int, i: int| 0 <= n < net.weights@.len() && 0 <= i < net.weights@[n].data@.len()
                    ==> draw.ensures((), #[trigger] net.weights@[n].data@[i])
                &&& forall|n: int, i: int| 0 <= n < net.biases@.len() && 0 <= i < net.biases@[n].data@.len()
                    ==> draw.ensures((), #[trigger] net.biases@[n].data@[i])
            }),
    {
        if layers.len() < 2 {
            return Err(TopologyError::TooFewLayers);
        }
        let mut k: usize = 0;
        while k < layers.len()
            invariant
                layers@.len() >= 2,
                k <= layers@.len(),
                forall|i: int| 0 <= i < k ==> #[trigger] layers@[i] > 0,
            decreases layers@.len() - k,
        {
            if layers[k] == 0 {
                return Err(TopologyError::EmptyLayer);
            }
            k = k + 1;
        }
        let mut weights: Vec<Matrix<T>> = Vec::new();
        let mut biases: Vec<Matrix<T>> = Vec::new();
        let mut n: usize = 0;
        while n < layers.len() - 1
            invariant
                valid_topology(layers@),
                sizes_fit(layers@),
                draw.requires(()),
                n <= layers@.len() - 1,
                weights@.len() == n,
                biases@.len() == n,
                forall|m: int| 0 <= m < n ==> {
                    &&& (#[trigger] weights@[m]).wf()
                    &&& weights@[m].rows == layers@[m + 1]
                    &&& weights@[m].columns == layers@[m]
                },
                forall|m: int| 0 <= m < n ==> is_column(#[trigger] biases@[m], layers@[m + 1] as int),
                forall|m: int, i: int| 0 <= m < n && 0 <= i < weights@[m].data@.len()
                    ==> draw.ensures((), #[trigger] weights@[m].data@[i]),
                forall|m: int, i: int| 0 <= m < n && 0 <= i < biases@[m].data@.len()
                    ==> draw.ensures((), #[trigger] biases@[m].data@[i]),
            decreases layers@.len() - 1 - n,
        {
            let w = Matrix::random(layers[n + 1], layers[n], &draw);
            let b = Matrix::random(layers[n + 1], 1, &draw);
            weights.push(w);
            biases.push(b);
            n = n + 1;
        }
        Ok(Network { layers, weights, biases, data: Vec::new() })
    }
}

impl<T: Copy> Network<T> {
    /// Runs layer `n` on the column vector `x`.
    fn step<D: Fn(Vec<T>, Vec<T>) -> T, P: Fn(T, T) -> T, A: Fn(T) -> T>(
        &self,
        n: usize,
        x: &Matrix<T>,
        dot: &D,
        plus: &P,
        act: &A,
    ) -> (y: Matrix<T>)
        requires
            self.wf(),
            n < self.depth() - 1,
            is_column(*x, self.layers@[n as int] as int),
            forall|v: Vec<T>, w: Vec<T>| dot.requires((v, w)),
            forall|a: T, b: T| plus.requires((a, b)),
            forall|a: T| act.requires((a,)),
        ensures
            layer_step(self.weights@[n as int], self.biases@[n as int], x.data@, y, *dot, *plus, *act),
    {
        let w = &self.weights[n];
        let b = &self.biases[n];
        let product = w.multiply(x, dot).unwrap();
        let sum = product.zip_with(b, plus).unwrap();
        let y = sum.map(act);
        assert(x.column_of(0) =~= x.data@);
        assert forall|i: int| 0 <= i < w.rows implies #[trigger] neuron_gives(*w, *b, x.data@, i, *dot, *plus, *act, y.data@[i]) by {
            assert(product.at(i, 0) == product.data@[i]);
            assert(dot_gives(*dot, w.row_of(i), x.data@, product.data@[i]));
            assert(plus.ensures((product.data@[i], b.data@[i]), sum.data@[i]));
            assert(act.ensures((sum.data@[i],), y.data@[i]));
        }
        y
    }

    /// Runs `inputs` through every layer and returns the output layer's values.
    ///
    /// Fails, leaving the network untouched, unless `inputs` is a column vector of the input layer's size;
    /// on success `data` is replaced by the activations of every layer, the input first.
    pub fn feed_forward<D: Fn(Vec<T>, Vec<T>) -> T, P: Fn(T, T) -> T, A: Fn(T) -> T>(
        &mut self,
        inputs: Matrix<T>,
        dot: D,
        plus: P,
        act: A,
    ) -> (r: Result<Matrix<T>, ShapeError>)
        requires
            old(self).wf(),
            inputs.wf(),
            forall|v: Vec<T>, w: Vec<T>| dot.requires((v, w)),
            forall|a: T, b: T| plus.requires((a, b)),
            forall|a: T| act.requires((a,)),
        ensures
            r is Ok <==> is_column(inputs, old(self).layers@[0] as int),
            r is Err ==> r->Err_0 == ShapeError::Incompatible && *final(self) == *old(self),
            final(self).layers == old(self).layers,
            final(self).weights == old(self).weights,
            final(self).biases == old(self).biases,
            final(self).wf(),
            r is Ok ==> final(self).passed(inputs.data@, dot, plus, act),
            r is Ok ==> final(self).recorded(),
            r is Ok ==> r->Ok_0.same_as(&final(self).data@[final(self).depth() - 1]),
    {
        if inputs.rows != self.layers[0] || inputs.columns != 1 {
            return Err(ShapeError::Incompatible);
        }
        let depth = self.layers.len();
        let mut record: Vec<Matrix<T>> = Vec::new();
        record.push(inputs.copy());
        let mut current = inputs.copy();
        let mut n: usize = 0;
        while n < depth - 1
            invariant
                self.wf(),
                *self == *old(self),
                depth == self.depth(),
                is_column(inputs, self.layers@[0] as int),
                forall|v: Vec<T>, w: Vec<T>| dot.requires((v, w)),
                forall|a: T, b: T| plus.requires((a, b)),
                forall|a: T| act.requires((a,)),
                n <= depth - 1,
                record@.len() == n + 1,
                record@[0].same_as(&inputs),
                current.same_as(&record@[n as int]),
                forall|k: int| 0 <= k <= n ==> is_column(#[trigger] record@[k], self.layers@[k] as int),
                forall|k: int| 0 <= k < n ==> layer_step(
                    self.weights@[k],
                    self.biases@[k],
                    record@[k].data@,
                    #[trigger] record@[k + 1],
                    dot,
                    plus,
                    act,
                ),
            decreases depth - 1 - n,
        {
            let next = self.step(n, &current, &dot, &plus, &act);
            current = next.copy();
            record.push(next);
            n = n + 1;
        }
        self.data = record;
        Ok(current)
    }

    /// Runs a plain vector through the network and returns the output layer's values.
    pub fn predict<D: Fn(Vec<T>, Vec<T>) -> T, P: Fn(T, T) -> T, A: Fn(T) -> T>(
        &mut self,
        input: Vec<T>,
        dot: D,
        plus: P,
        act: A,
    ) -> (r: Result<Vec<T>, ShapeError>)
        requires
            old(self).wf(),
            forall|v: Vec<T>, w: Vec<T>| dot.requires((v, w)),
            forall|a: T, b: T| plus.requires((a, b)),
            forall|a: T| act.requires((a,)),
        ensures
            r is Ok <==> input@.len() == old(self).layers@[0],
            r is Err ==> r->Err_0 == ShapeError::Incompatible && *final(self) == *old(self),
            final(self).wf(),
            final(self).layers == old(self).layers,
            final(self).weights == old(self).weights,
            final(self).biases == old(self).biases,
            r is Ok ==> final(self).passed(input@, dot, plus, act),
            r is Ok ==> r->Ok_0@ == final(self).data@[final(self).depth() - 1].data@,
    {
        let m = Matrix::from_vec(input);
        match self.feed_forward(m, dot, plus, act) {
            Ok(out) => Ok(out.data),
            Err(e) => Err(e),
        }
    }
}

impl<T> Network<T> {
    /// Whether topology, weights and biases agree.
    pub fn check_wf(&self) -> (r: bool)
        ensures
            r == self.wf(),
    {
        let depth = self.layers.len();
        if depth < 2 || self.weights.len() != depth - 1 || self.biases.len() != depth - 1 {
            return false;
        }
        let mut k: usize = 0;
        while k < depth
            invariant
                depth == self.depth(),
                k <= depth,
                forall|i: int| 0 <= i < k ==> #[trigger] self.layers@[i] > 0,
            decreases depth - k,
        {
            if self.layers[k] == 0 {
                return false;
            }
            k = k + 1;
        }
        let mut n: usize = 0;
        while n < depth - 1
            invariant
                depth == self.depth(),
                depth >= 2,
                valid_topology(self.layers@),
                self.weights@.len() == depth - 1,
                self.biases@.len() == depth - 1,
                n <= depth - 1,
                forall|m: int| 0 <= m < n ==> {
                    &&& (#[trigger] self.weights@[m]).wf()
                    &&& self.weights@[m].rows == self.layers@[m + 1]
                    &&& self.weights@[m].columns == self.layers@[m]
                },
                forall|m: int| 0 <= m < n ==> is_column(#[trigger] self.biases@[m], self.layers@[m + 1] as int),
            decreases depth - 1 - n,
        {
            let w = &self.weights[n];
            let b = &self.biases[n];
            proof {
                crate::matrix::lemma_product_fits(w.rows, w.columns);
            }
            if w.rows != self.layers[n + 1] || w.columns != self.layers[n]
                || (w.rows as u128) * (w.columns as u128) != w.data.len() as u128 {
                return false;
            }
            if b.rows != self.layers[n + 1] || b.columns != 1 || b.data.len() != b.rows {
                return false;
            }
            assert(b.rows * 1 == b.rows);
            n = n + 1;
        }
        true
    }
}

impl<T: Copy> Network<T> {
    /// Whether `data` holds one column vector per layer, of that layer's size.
    fn check_recorded(&self) -> (r: bool)
        requires
            self.wf(),
        ensures
            r == self.recorded(),
    {
        if self.data.len() != self.layers.len() {
            return false;
        }
        let mut n: usize = 0;
        while n < self.data.len()
            invariant
                self.wf(),
                self.data@.len() == self.depth(),
                n <= self.data@.len(),
                forall|k: int| 0 <= k < n ==> is_column(#[trigger] self.data@[k], self.layers@[k] as int),
            decreases self.data@.len() - n,
        {
            let m = &self.data[n];
            if m.rows != self.layers[n] || m.columns != 1 || m.data.len() != m.rows {
                return false;
            }
            assert(m.rows * 1 == m.rows);
            n = n + 1;
        }
        true
    }

    /// One step of gradient descent towards `targets`, given the `inputs` that the last forward pass returned.
    ///
    /// Going from the last layer to the first, the gradient `deriv(output) * errors * rate` is added to the
    /// biases and, multiplied by the layer's transposed input, to the weights; the errors are carried back
    /// through the weights as they were before the update.
    /// Fails, leaving the network untouched, unless `data` holds a forward pass and `inputs` and `targets`
    /// are column vectors of the output layer's size.
    pub fn back_propogate<
        S: Fn(T, T) -> T,
        M: Fn(T, T) -> T,
        G: Fn(T) -> T,
        D: Fn(Vec<T>, Vec<T>) -> T,
        P: Fn(T, T) -> T,
    >(
        &mut self,
        inputs: Matrix<T>,
        targets: Matrix<T>,
        rate: T,
        minus: S,
        times: M,
        deriv: G,
        dot: D,
        plus: P,
    ) -> (r: Result<(), ShapeError>)
        requires
            old(self).wf(),
            inputs.wf(),
            targets.wf(),
            forall|a: T, b: T| minus.requires((a, b)),
            forall|a: T, b: T| times.requires((a, b)),
            forall|a: T| deriv.requires((a,)),
            forall|v: Vec<T>, w: Vec<T>| dot.requires((v, w)),
            forall|a: T, b: T| plus.requires((a, b)),
        ensures
            r is Ok <==> old(self).recorded() && is_column(inputs, old(self).output_size())
                && is_column(targets, old(self).output_size()),
            r is Err ==> r->Err_0 == ShapeError::Incompatible && *final(self) == *old(self),
            final(self).wf(),
            final(self).layers == old(self).layers,
            final(self).data == old(self).data,
            r is Ok ==> exists|es: Seq<Matrix<T>>, gs: Seq<Matrix<T>>| #[trigger] backprop_trace(
                *old(self),
                *final(self),
                inputs,
                targets,
                rate,
                minus,
                times,
                deriv,
                dot,
                plus,
                es,
                gs,
            ),
    {
        let last = self.layers.len() - 1;
        if !self.check_recorded() || inputs.rows != self.layers[last] || inputs.columns != 1
            || targets.rows != self.layers[last] || targets.columns != 1 {
            return Err(ShapeError::Incompatible);
        }
        let mut errors = match targets.zip_with(&inputs, &minus) {
            Ok(m) => m,
            Err(e) => {
                return Err(e);
            },
        };
        let ghost first_errors = errors;
        let mut gradients = inputs.map(&deriv);
        let ghost mut es: Seq<Matrix<T>> = Seq::new(last as nat, |i: int| first_errors);
        let ghost mut gs: Seq<Matrix<T>> = Seq::new(last as nat, |i: int| first_errors);
        let mut k: usize = last;
        while k > 0
            invariant
                self.wf(),
                self.recorded(),
                self.layers == old(self).layers,
                self.data == old(self).data,
                self.weights@.len() == old(self).weights@.len(),
                self.biases@.len() == old(self).biases@.len(),
                old(self).wf(),
                last == self.depth() - 1,
                is_column(inputs, self.output_size()),
                is_column(targets, self.output_size()),
                k <= last,
                es.len() == last,
                gs.len() == last,
                k > 0 ==> is_column(errors, self.layers@[k as int] as int),
                k > 0 ==> gradients.is_map_of(&layer_output(*old(self), inputs, k - 1), deriv),
                k == last ==> errors == first_errors,
                first_errors.is_zip_of(&targets, &inputs, minus),
                0 < k < last ==> carried_back(old(self).weights@[k as int], es[k as int], dot, errors),
                k < last ==> es[last - 1] == first_errors,
                forall|n: int| k <= n < last - 1 ==> carried_back(
                    old(self).weights@[n + 1],
                    es[n + 1],
                    dot,
                    #[trigger] es[n],
                ),
                forall|n: int| k <= n < last ==> gradient_of(
                    layer_output(*old(self), inputs, n),
                    es[n],
                    rate,
                    deriv,
                    times,
                    #[trigger] gs[n],
                ),
                forall|n: int| k <= n < last ==> weights_updated(
                    old(self).weights@[n],
                    gs[n],
                    old(self).data@[n],
                    dot,
                    plus,
                    #[trigger] self.weights@[n],
                ),
                forall|n: int| k <= n < last ==> (#[trigger] self.biases@[n]).is_zip_of(
                    &old(self).biases@[n],
                    &gs[n],
                    plus,
                ),
                forall|n: int| 0 <= n < k ==> #[trigger] self.weights@[n] == old(self).weights@[n],
                forall|n: int| 0 <= n < k ==> #[trigger] self.biases@[n] == old(self).biases@[n],
                forall|a: T, b: T| minus.requires((a, b)),
                forall|a: T, b: T| times.requires((a, b)),
                forall|a: T| deriv.requires((a,)),
                forall|v: Vec<T>, w: Vec<T>| dot.requires((v, w)),
                forall|a: T, b: T| plus.requires((a, b)),
            decreases k,
        {
            let n = k - 1;
            let ghost y = layer_output(*old(self), inputs, n as int);
            let product = match gradients.hadamard_product(&errors, &times) {
                Ok(m) => m,
                Err(e) => {
                    return Err(e);
                },
            };
            let scaled = product.scaled(rate, &times);
            proof {
                assert forall|i: int| 0 <= i < y.rows implies #[trigger] gradient_cell(
                    y.data@[i],
                    errors.data@[i],
                    rate,
                    deriv,
                    times,
                    scaled.data@[i],
                ) by {
                    assert(deriv.ensures((y.data@[i],), gradients.data@[i]));
                    assert(times.ensures((gradients.data@[i], errors.data@[i]), product.data@[i]));
                    assert(times.ensures((product.data@[i], rate), scaled.data@[i]));
                }
            }
            let input_row = self.data[n].transpose();
            let _ = self.weights[n].data.len();
            let delta = match scaled.multiply(&input_row, &dot) {
                Ok(m) => m,
                Err(e) => {
                    return Err(e);
                },
            };
            let ghost errors_here = errors;
            if n > 0 {
                let turned = self.weights[n].transpose();
                let back = match turned.multiply(&errors, &dot) {
                    Ok(m) => m,
                    Err(e) => {
                        return Err(e);
                    },
                };
                proof {
                    let w = old(self).weights@[n as int];
                    crate::matrix::lemma_column_of_column(errors);
                    assert forall|j: int| 0 <= j < w.columns implies dot_gives(
                        dot,
                        w.column_of(j),
                        errors.data@,
                        #[trigger] back.data@[j],
                    ) by {
                        crate::matrix::lemma_transpose_row(turned, w, j);
                        assert(back.at(j, 0) == back.data@[j]);
                    }
                }
                errors = back;
                gradients = self.data[n].map(&deriv);
            }
            let ghost w_old = self.weights@[n as int];
            let mut w = self.weights[n].copy();
            let added_w = w.add_assign(&delta, &plus);
            let mut b = self.biases[n].copy();
            let added_b = b.add_assign(&scaled, &plus);
            assert(added_w is Ok && added_b is Ok);
            proof {
                let x = old(self).data@[n as int];
                assert forall|i: int, j: int| 0 <= i < w_old.rows && 0 <= j < w_old.columns implies
                    #[trigger] weight_cell(w_old, scaled, x, dot, plus, w, i, j) by {
                    crate::matrix::lemma_row_of_column(scaled, i);
                    crate::matrix::lemma_column_of_row(input_row, j);
                    assert(input_row.at(0, j) == x.at(j, 0));
                    assert(input_row.at(0, j) == input_row.data@[j]);
                    assert(x.at(j, 0) == x.data@[j]);
                    crate::matrix::lemma_cell_in_bounds(i, j, w_old.rows as int, w_old.columns as int);
                    let idx = i * w_old.columns + j;
                    assert(delta.columns == w_old.columns);
                    assert(delta.at(i, j) == delta.data@[idx]);
                    assert(w.at(i, j) == w.data@[idx]);
                    assert(w_old.at(i, j) == w_old.data@[idx]);
                    assert(plus.ensures((w_old.data@[idx], delta.data@[idx]), w.data@[idx]));
                    assert(dot_gives(dot, seq![scaled.data@[i]], seq![x.data@[j]], delta.at(i, j)));
                }
                es = es.update(n as int, errors_here);
                gs = gs.update(n as int, scaled);
            }
            self.weights.set(n, w);
            self.biases.set(n, b);
            k = n;
        }
        proof {
            assert(backprop_trace(*old(self), *self, inputs, targets, rate, minus, times, deriv, dot, plus, es, gs));
        }
        Ok(())
    }
}

/// `after` is `before` once the sample `x` has gone forward (through `mid`, which returned `out`) and
/// back towards the target `target`, which holds `t`.
pub open spec fn trained_on<
    T,
    S: Fn(T, T) -> T,
    M: Fn(T, T) -> T,
    G: Fn(T) -> T,
    D: Fn(Vec<T>, Vec<T>) -> T,
    P: Fn(T, T) -> T,
    A: Fn(T) -> T,
>(
    before: Network<T>,
    mid: Network<T>,
    out: Matrix<T>,
    target: Matrix<T>,
    after: Network<T>,
    x: Seq<T>,
    t: Seq<T>,
    rate: T,
    minus: S,
    times: M,
    deriv: G,
    dot: D,
    plus: P,
    act: A,
    es: Seq<Matrix<T>>,
    gs: Seq<Matrix<T>>,
) -> bool {
    &&& mid.layers == before.layers
    &&& mid.weights == before.weights
    &&& mid.biases == before.biases
    &&& mid.passed(x, dot, plus, act)
    &&& out.same_as(&mid.data@[mid.depth() - 1])
    &&& target.wf() && target.rows == t.len() && target.columns == 1 && target.data@ == t
    &&& backprop_trace(mid, after, out, target, rate, minus, times, deriv, dot, plus, es, gs)
}

/// `after` is `before` once the sample `x` with target `t` has gone forward and back.
pub open spec fn sample_step<
    T,
    S: Fn(T, T) -> T,
    M: Fn(T, T) -> T,
    G: Fn(T) -> T,
    D: Fn(Vec<T>, Vec<T>) -> T,
    P: Fn(T, T) -> T,
    A: Fn(T) -> T,
>(
    before: Network<T>,
    after: Network<T>,
    x: Seq<T>,
    t: Seq<T>,
    rate: T,
    minus: S,
    times: M,
    deriv: G,
    dot: D,
    plus: P,
    act: A,
) -> bool {
    exists|mid: Network<T>, out: Matrix<T>, target: Matrix<T>, es: Seq<Matrix<T>>, gs: Seq<Matrix<T>>|
        #[trigger] trained_on(before, mid, out, target, after, x, t, rate, minus, times, deriv, dot, plus, act, es, gs)
}

/// `states` runs from `before` to `after`, one sample step at a time: for each epoch, each sample in order.
pub open spec fn training_run<
    T,
    S: Fn(T, T) -> T,
    M: Fn(T, T) -> T,
    G: Fn(T) -> T,
    D: Fn(Vec<T>, Vec<T>) -> T,
    P: Fn(T, T) -> T,
    A: Fn(T) -> T,
>(
    before: Network<T>,
    after: Network<T>,
    states: Seq<Network<T>>,
    inputs: Seq<Vec<T>>,
    targets: Seq<Vec<T>>,
    epochs: int,
    rate: T,
    minus: S,
    times: M,
    deriv: G,
    dot: D,
    plus: P,
    act: A,
) -> bool {
    let count = inputs.len() as int;
    &&& states.len() == epochs * count + 1
    &&& states[0] == before
    &&& states.last() == after
    &&& forall|e: int, i: int| 0 <= e < epochs && 0 <= i < count ==> #[trigger] sample_step(
        states[e * count + i],
        states[e * count + i + 1],
        inputs[i]@,
        targets[i]@,
        rate,
        minus,
        times,
        deriv,
        dot,
        plus,
        act,
    )
}

/// Every row of `rows` holds `n` values.
pub open spec fn all_of_length<T>(rows: Seq<Vec<T>>, n: int) -> bool {
    forall|i: int| 0 <= i < rows.len() ==> (#[trigger] rows[i])@.len() == n
}

/// Index of the first row of `rows` that does not hold `n` values, or `rows.len()` if there is none.
fn first_of_other_length<T>(rows: &Vec<Vec<T>>, n: usize) -> (r: usize)
    ensures
        r <= rows@.len(),
        forall|i: int| 0 <= i < r ==> (#[trigger] rows@[i])@.len() == n,
        r < rows@.len() ==> rows@[r as int]@.len() != n,
{
    let mut i: usize = 0;
    while i < rows.len()
        invariant
            i <= rows@.len(),
            forall|k: int| 0 <= k < i ==> (#[trigger] rows@[k])@.len() == n,
        decreases rows@.len() - i,
    {
        if rows[i].len() != n {
            return i;
        }
        i = i + 1;
    }
    i
}

impl<T: Copy> Network<T> {
    /// Trains the network for `epochs` passes over the samples, in order: one forward and one backward
    /// pass per sample.
    ///
    /// Fails, leaving the network untouched, unless there is at least one sample, one target per input,
    /// every input has the input layer's size and every target the output layer's size.
    pub fn train<
        S: Fn(T, T) -> T + Copy,
        M: Fn(T, T) -> T + Copy,
        G: Fn(T) -> T + Copy,
        D: Fn(Vec<T>, Vec<T>) -> T + Copy,
        P: Fn(T, T) -> T + Copy,
        A: Fn(T) -> T + Copy,
    >(
        &mut self,
        inputs: Vec<Vec<T>>,
        targets: Vec<Vec<T>>,
        epochs: u32,
        rate: T,
        minus: S,
        times: M,
        deriv: G,
        dot: D,
        plus: P,
        act: A,
    ) -> (r: Result<(), DataShapeError>)
        requires
            old(self).wf(),
            forall|a: T, b: T| minus.requires((a, b)),
            forall|a: T, b: T| times.requires((a, b)),
            forall|a: T| deriv.requires((a,)),
            forall|v: Vec<T>, w: Vec<T>| dot.requires((v, w)),
            forall|a: T, b: T| plus.requires((a, b)),
            forall|a: T| act.requires((a,)),
        ensures
            r is Ok <==> inputs@.len() > 0 && inputs@.len() == targets@.len()
                && all_of_length(inputs@, old(self).layers@[0] as int)
                && all_of_length(targets@, old(self).output_size()),
            r == Err::<(), _>(DataShapeError::Empty) <==> inputs@.len() == 0,
            r == Err::<(), _>(DataShapeError::CountMismatch) <==> inputs@.len() > 0
                && inputs@.len() != targets@.len(),
            r == Err::<(), _>(DataShapeError::InputLength) <==> inputs@.len() > 0
                && inputs@.len() == targets@.len() && !all_of_length(inputs@, old(self).layers@[0] as int),
            r == Err::<(), _>(DataShapeError::TargetLength) <==> inputs@.len() > 0
                && inputs@.len() == targets@.len() && all_of_length(inputs@, old(self).layers@[0] as int)
                && !all_of_length(targets@, old(self).output_size()),
            r is Err ==> *final(self) == *old(self),
            final(self).wf(),
            final(self).layers == old(self).layers,
            epochs == 0 ==> *final(self) == *old(self),
            r is Ok ==> exists|states: Seq<Network<T>>| #[trigger] training_run(
                *old(self),
                *final(self),
                states,
                inputs@,
                targets@,
                epochs as int,
                rate,
                minus,
                times,
                deriv,
                dot,
                plus,
                act,
            ),
    {
        if inputs.len() == 0 {
            return Err(DataShapeError::Empty);
        }
        if inputs.len() != targets.len() {
            return Err(DataShapeError::CountMismatch);
        }
        let bad_input = first_of_other_length(&inputs, self.layers[0]);
        if bad_input < inputs.len() {
            return Err(DataShapeError::InputLength);
        }
        let bad_target = first_of_other_length(&targets, self.layers[self.layers.len() - 1]);
        if bad_target < targets.len() {
            return Err(DataShapeError::TargetLength);
        }
        let count = inputs.len();
        let ghost mut states: Seq<Network<T>> = seq![*self];
        let mut e: u32 = 0;
        while e < epochs
            invariant
                self.wf(),
                self.layers == old(self).layers,
                epochs == 0 ==> *self == *old(self),
                e <= epochs,
                count == inputs@.len(),
                inputs@.len() == targets@.len(),
                all_of_length(inputs@, self.layers@[0] as int),
                all_of_length(targets@, self.output_size()),
                states.len() == e * count + 1,
                states[0] == *old(self),
                states.last() == *self,
                forall|a: int, i: int| 0 <= a < e && 0 <= i < count ==> #[trigger] sample_step(
                    states[a * count + i],
                    states[a * count + i + 1],
                    inputs@[i]@,
                    targets@[i]@,
                    rate,
                    minus,
                    times,
                    deriv,
                    dot,
                    plus,
                    act,
                ),
                forall|a: T, b: T| minus.requires((a, b)),
                forall|a: T, b: T| times.requires((a, b)),
                forall|a: T| deriv.requires((a,)),
                forall|v: Vec<T>, w: Vec<T>| dot.requires((v, w)),
                forall|a: T, b: T| plus.requires((a, b)),
                forall|a: T| act.requires((a,)),
            decreases epochs - e,
        {
            let mut i: usize = 0;
            while i < count
                invariant
                    self.wf(),
                    self.layers == old(self).layers,
                    e < epochs,
                    i <= count,
                    count == inputs@.len(),
                    inputs@.len() == targets@.len(),
                    all_of_length(inputs@, self.layers@[0] as int),
                    all_of_length(targets@, self.output_size()),
                    states.len() == e * count + i + 1,
                    states[0] == *old(self),
                    states.last() == *self,
                    forall|a: int, j: int| 0 <= a < e && 0 <= j < count ==> #[trigger] sample_step(
                        states[a * count + j],
                        states[a * count + j + 1],
                        inputs@[j]@,
                        targets@[j]@,
                        rate,
                        minus,
                        times,
                        deriv,
                        dot,
                        plus,
                        act,
                    ),
                    forall|j: int| 0 <= j < i ==> #[trigger] sample_step(
                        states[e * count + j],
                        states[e * count + j + 1],
                        inputs@[j]@,
                        targets@[j]@,
                        rate,
                        minus,
                        times,
                        deriv,
                        dot,
                        plus,
                        act,
                    ),
                    forall|a: T, b: T| minus.requires((a, b)),
                    forall|a: T, b: T| times.requires((a, b)),
                    forall|a: T| deriv.requires((a,)),
                    forall|v: Vec<T>, w: Vec<T>| dot.requires((v, w)),
                    forall|a: T, b: T| plus.requires((a, b)),
                    forall|a: T| act.requires((a,)),
                decreases count - i,
            {
                let ghost before = *self;
                let input = Matrix::from_vec(copy_vec(&inputs[i]));
                let target = Matrix::from_vec(copy_vec(&targets[i]));
                let output = match self.feed_forward(input, dot, plus, act) {
                    Ok(m) => m,
                    Err(_) => {
                        return Err(DataShapeError::InputLength);
                    },
                };
                let ghost mid = *self;
                let ghost out = output;
                let ghost goal = target;
                let stepped = self.back_propogate(output, target, rate, minus, times, deriv, dot, plus);
                assert(stepped is Ok);
                proof {
                    let (es, gs) = choose|es: Seq<Matrix<T>>, gs: Seq<Matrix<T>>| backprop_trace(
                        mid,
                        *self,
                        out,
                        goal,
                        rate,
                        minus,
                        times,
                        deriv,
                        dot,
                        plus,
                        es,
                        gs,
                    );
                    assert(trained_on(
                        before,
                        mid,
                        out,
                        goal,
                        *self,
                        inputs@[i as int]@,
                        targets@[i as int]@,
                        rate,
                        minus,
                        times,
                        deriv,
                        dot,
                        plus,
                        act,
                        es,
                        gs,
                    ));
                    let old_states = states;
                    states = states.push(*self);
                    assert forall|a: int, j: int| 0 <= a < e && 0 <= j < count implies #[trigger] sample_step(
                        states[a * count + j],
                        states[a * count + j + 1],
                        inputs@[j]@,
                        targets@[j]@,
                        rate,
                        minus,
                        times,
                        deriv,
                        dot,
                        plus,
                        act,
                    ) by {
                        crate::matrix::lemma_cell_in_bounds(a, j, e as int, count as int);
                        assert(states[a * count + j] == old_states[a * count + j]);
                        assert(states[a * count + j + 1] == old_states[a * count + j + 1]);
                    }
                    assert forall|j: int| 0 <= j < i + 1 implies #[trigger] sample_step(
                        states[e * count + j],
                        states[e * count + j + 1],
                        inputs@[j]@,
                        targets@[j]@,
                        rate,
                        minus,
                        times,
                        deriv,
                        dot,
                        plus,
                        act,
                    ) by {
                        if j < i {
                            assert(states[e * count + j] == old_states[e * count + j]);
                            assert(states[e * count + j + 1] == old_states[e * count + j + 1]);
                        } else {
                            assert(states[e * count + j] == before);
                        }
                    }
                }
                i = i + 1;
            }
            proof {
                assert((e + 1) * count == e * count + count) by (nonlinear_arith);
            }
            e = e + 1;
        }
        proof {
            assert(training_run(*old(self), *self, states, inputs@, targets@, epochs as int, rate, minus, times, deriv, dot, plus, act));
        }
        Ok(())
    }
}

} // verus!
