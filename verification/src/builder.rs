//! Construction and validation of a network, one layer at a time.

use vstd::prelude::*;

use crate::event::zero_seq;
use crate::layer::{mat_views, Layer, LayerModel};
use crate::neuron::Neuron;
use crate::processor::{layer_views, net_wf};
use crate::snn::SNN;

verus! {

/// Why a network description was rejected at construction time.
#[derive(Clone, Copy, Debug, PartialEq, Eq, Structural)]
pub enum BuildError {
    /// A layer must own at least one neuron.
    EmptyLayer,
    /// The recurrent matrix must have one row per neuron.
    IntraRowsMismatch,
    /// Every recurrent row must have one entry per neuron.
    IntraColsMismatch,
    /// Recurrent weights are inhibitory: none may be positive.
    PositiveIntraWeight,
    /// The feedforward matrix must have one row per neuron.
    WeightRowsMismatch,
    /// Every feedforward row must have one entry per input channel.
    WeightColsMismatch,
    /// Feedforward weights are excitatory: none may be negative.
    NegativeWeight,
    /// A network must have at least one layer.
    ZeroLayers,
}

/// An accepted layer description for a stage fed by `prev_w` channels.
pub open spec fn layer_ok<N: Neuron>(
    ns: Seq<N>,
    ew: Seq<Seq<i64>>,
    iw: Seq<Seq<i64>>,
    prev_w: nat,
) -> bool {
    &&& ns.len() > 0
    &&& iw.len() == ns.len()
    &&& forall|i: int| 0 <= i < iw.len() ==> (#[trigger] iw[i]).len() == ns.len()
    &&& forall|i: int, j: int| 0 <= i < iw.len() && 0 <= j < iw[i].len() ==> #[trigger] iw[i][j] <= 0
    &&& ew.len() == ns.len()
    &&& forall|i: int| 0 <= i < ew.len() ==> (#[trigger] ew[i]).len() == prev_w
    &&& forall|i: int, j: int| 0 <= i < ew.len() && 0 <= j < ew[i].len() ==> #[trigger] ew[i][j] >= 0
}

/// The error reported for a rejected layer description; the checks run in
/// this order: neuron count, recurrent shape, recurrent signs, feedforward
/// shape, feedforward signs.
pub open spec fn layer_fault<N: Neuron>(
    ns: Seq<N>,
    ew: Seq<Seq<i64>>,
    iw: Seq<Seq<i64>>,
    prev_w: nat,
) -> BuildError {
    if ns.len() == 0 {
        BuildError::EmptyLayer
    } else if iw.len() != ns.len() {
        BuildError::IntraRowsMismatch
    } else if exists|i: int| 0 <= i < iw.len() && (#[trigger] iw[i]).len() != ns.len() {
        BuildError::IntraColsMismatch
    } else if exists|i: int, j: int|
        0 <= i < iw.len() && 0 <= j < iw[i].len() && #[trigger] iw[i][j] > 0 {
        BuildError::PositiveIntraWeight
    } else if ew.len() != ns.len() {
        BuildError::WeightRowsMismatch
    } else if exists|i: int| 0 <= i < ew.len() && (#[trigger] ew[i]).len() != prev_w {
        BuildError::WeightColsMismatch
    } else {
        BuildError::NegativeWeight
    }
}

/// The model of a freshly built layer.
pub open spec fn built_layer<N: Neuron>(ns: Seq<N>, ew: Seq<Seq<i64>>, iw: Seq<Seq<i64>>)
    -> LayerModel<N> {
    LayerModel { neurons: ns, weights: ew, intra_weights: iw, prev_output: zero_seq(ns.len()) }
}

/// Builds a network layer by layer, validating every piece as it arrives:
/// matrix shapes against the neuron count and the previous stage's width,
/// feedforward weights non-negative, recurrent weights non-positive.
pub struct SnnBuilder<N: Neuron> {
    input_dim: usize,
    layers: Vec<Layer<N>>,
}

impl<N: Neuron> View for SnnBuilder<N> {
    type V = Seq<LayerModel<N>>;

    closed spec fn view(&self) -> Seq<LayerModel<N>> {
        layer_views(self.layers@)
    }
}

impl<N: Neuron> SnnBuilder<N> {
    /// The declared width of the network input.
    pub closed spec fn spec_input_dim(&self) -> nat {
        self.input_dim as nat
    }

    /// The builder invariant: what has been accepted so far forms a healthy
    /// chain starting at the declared input width.
    pub closed spec fn wf(&self) -> bool {
        &&& net_wf(layer_views(self.layers@))
        &&& self@.len() > 0 ==> self@[0].in_width() == self.spec_input_dim()
    }

    /// The width the next layer has to consume: the declared input width
    /// first, then each previous layer's neuron count.
    pub open spec fn next_width(&self) -> nat {
        if self@.len() == 0 {
            self.spec_input_dim()
        } else {
            self@.last().n_count()
        }
    }

    /// Starts a description of a network whose input has `input_dimension`
    /// channels.
    pub fn new(input_dimension: usize) -> (r: Self)
        ensures
            r.wf(),
            r@ == Seq::<LayerModel<N>>::empty(),
            r.spec_input_dim() == input_dimension,
    {
        Self { input_dim: input_dimension, layers: Vec::new() }
    }

    /// Number of layers accepted so far.
    pub fn get_layers_number(&self) -> (n: usize)
        ensures
            n == self@.len(),
    {
        self.layers.len()
    }

    /// The declared input width.
    pub fn get_input_dimension(&self) -> (n: usize)
        ensures
            n == self.spec_input_dim(),
    {
        self.input_dim
    }

    /// Checks and appends one layer.  `extra_weights[i][j]` connects input
    /// channel `j` to neuron `i` and must be non-negative;
    /// `intra_weights[i][j]` connects neuron `j` to neuron `i` within the
    /// layer and must be non-positive (the diagonal is kept but never used).
    pub fn add_layer(
        self,
        neurons: Vec<N>,
        extra_weights: Vec<Vec<i64>>,
        intra_weights: Vec<Vec<i64>>,
    ) -> (r: Result<Self, BuildError>)
        requires
            self.wf(),
        ensures
            match r {
                Ok(b) => {
                    &&& layer_ok(
                        neurons@,
                        mat_views(extra_weights@),
                        mat_views(intra_weights@),
                        self.next_width(),
                    )
                    &&& b.wf()
                    &&& b@ == self@.push(
                        built_layer(
                            neurons@,
                            mat_views(extra_weights@),
                            mat_views(intra_weights@),
                        ),
                    )
                    &&& b.spec_input_dim() == self.spec_input_dim()
                },
                Err(e) => {
                    &&& !layer_ok(
                        neurons@,
                        mat_views(extra_weights@),
                        mat_views(intra_weights@),
                        self.next_width(),
                    )
                    &&& e == layer_fault(
                        neurons@,
                        mat_views(extra_weights@),
                        mat_views(intra_weights@),
                        self.next_width(),
                    )
                },
            },
    {
        let ghost ns = neurons@;
        let ghost ew = mat_views(extra_weights@);
        let ghost iw = mat_views(intra_weights@);
        let ghost prev_w = self.next_width();
        let n = neurons.len();
        if n == 0 {
            return Err(BuildError::EmptyLayer);
        }
        // recurrent matrix: shape, then signs
        if intra_weights.len() != n {
            return Err(BuildError::IntraRowsMismatch);
        }
        let mut i: usize = 0;
        while i < n
            invariant
                0 <= i <= n,
                forall|k: int| 0 <= k < i ==> (#[trigger] iw[k]).len() == n,
            decreases n - i,
        {
            proof {
                assert(iw[i as int] == intra_weights@[i as int]@);
            }
            if intra_weights[i].len() != n {
                return Err(BuildError::IntraColsMismatch);
            }
            i = i + 1;
        }
        let mut i: usize = 0;
        while i < n
            invariant
                0 <= i <= n,
                forall|k: int, j: int| 0 <= k < i && 0 <= j < iw[k].len() ==> #[trigger] iw[k][j]
                    <= 0,
            decreases n - i,
        {
            proof {
                assert(iw[i as int] == intra_weights@[i as int]@);
            }
            let mut j: usize = 0;
            while j < n
                invariant
                    0 <= j <= n,
                    forall|jj: int| 0 <= jj < j ==> #[trigger] iw[i as int][jj] <= 0,
                decreases n - j,
            {
                if intra_weights[i][j] > 0 {
                    return Err(BuildError::PositiveIntraWeight);
                }
                j = j + 1;
            }
            i = i + 1;
        }
        // feedforward matrix: shape, then signs
        if extra_weights.len() != n {
            return Err(BuildError::WeightRowsMismatch);
        }
        let prev_width = if self.layers.len() == 0 {
            self.input_dim
        } else {
            proof {
                assert((self.layers@[self.layers@.len() - 1])@ == self@.last());
            }
            self.layers[self.layers.len() - 1].get_neurons_number()
        };
        proof {
            assert(prev_width == prev_w);
        }
        let mut i: usize = 0;
        while i < n
            invariant
                0 <= i <= n,
                forall|k: int| 0 <= k < i ==> (#[trigger] ew[k]).len() == prev_w,
            decreases n - i,
        {
            proof {
                assert(ew[i as int] == extra_weights@[i as int]@);
            }
            if extra_weights[i].len() != prev_width {
                return Err(BuildError::WeightColsMismatch);
            }
            i = i + 1;
        }
        let mut i: usize = 0;
        while i < n
            invariant
                0 <= i <= n,
                forall|k: int, j: int| 0 <= k < i && 0 <= j < ew[k].len() ==> #[trigger] ew[k][j]
                    >= 0,
            decreases n - i,
        {
            proof {
                assert(ew[i as int] == extra_weights@[i as int]@);
            }
            let mut j: usize = 0;
            while j < prev_width
                invariant
                    0 <= j <= prev_width,
                    forall|jj: int| 0 <= jj < j ==> #[trigger] ew[i as int][jj] >= 0,
                decreases prev_width - j,
            {
                if extra_weights[i][j] < 0 {
                    return Err(BuildError::NegativeWeight);
                }
                j = j + 1;
            }
            i = i + 1;
        }
        proof {
            assert(layer_ok(ns, ew, iw, prev_w));
            assert(built_layer(ns, ew, iw).wf());
        }
        let layer = Layer::new(neurons, extra_weights, intra_weights);
        let mut layers = self.layers;
        let ghost old_views = layer_views(layers@);
        layers.push(layer);
        let r = Self { input_dim: self.input_dim, layers };
        proof {
            assert(r@ =~= self@.push(built_layer(ns, ew, iw)));
            assert(forall|k: int| 0 <= k < self@.len() ==> r@[k] == self@[k]);
            assert(net_wf(r@));
        }
        Ok(r)
    }

    /// Checks and appends one layer of `num_neurons` copies of one neuron.
    pub fn add_layer_with_same_neurons(
        self,
        neuron: N,
        num_neurons: usize,
        extra_weights: Vec<Vec<i64>>,
        intra_weights: Vec<Vec<i64>>,
    ) -> (r: Result<Self, BuildError>) where N: Copy
        requires
            self.wf(),
        ensures
            match r {
                Ok(b) => {
                    &&& layer_ok(
                        Seq::new(num_neurons as nat, |i: int| neuron),
                        mat_views(extra_weights@),
                        mat_views(intra_weights@),
                        self.next_width(),
                    )
                    &&& b.wf()
                    &&& b@ == self@.push(
                        built_layer(
                            Seq::new(num_neurons as nat, |i: int| neuron),
                            mat_views(extra_weights@),
                            mat_views(intra_weights@),
                        ),
                    )
                    &&& b.spec_input_dim() == self.spec_input_dim()
                },
                Err(e) => {
                    &&& !layer_ok(
                        Seq::new(num_neurons as nat, |i: int| neuron),
                        mat_views(extra_weights@),
                        mat_views(intra_weights@),
                        self.next_width(),
                    )
                    &&& e == layer_fault(
                        Seq::new(num_neurons as nat, |i: int| neuron),
                        mat_views(extra_weights@),
                        mat_views(intra_weights@),
                        self.next_width(),
                    )
                },
            },
    {
        let mut neurons: Vec<N> = Vec::new();
        let mut i: usize = 0;
        while i < num_neurons
            invariant
                0 <= i <= num_neurons,
                neurons@.len() == i,
                forall|k: int| 0 <= k < i ==> neurons@[k] == neuron,
            decreases num_neurons - i,
        {
            neurons.push(neuron);
            i = i + 1;
        }
        proof {
            assert(neurons@ =~= Seq::new(num_neurons as nat, |i: int| neuron));
        }
        self.add_layer(neurons, extra_weights, intra_weights)
    }

    /// Finishes the description: a network needs at least one layer.
    pub fn build(self) -> (r: Result<SNN<N>, BuildError>)
        requires
            self.wf(),
        ensures
            match r {
                Ok(net) => self@.len() > 0 && net@ == self@,
                Err(e) => self@.len() == 0 && e == BuildError::ZeroLayers,
            },
    {
        if self.layers.len() == 0 {
            return Err(BuildError::ZeroLayers);
        }
        Ok(SNN::new(self.layers))
    }
}

} // verus!
