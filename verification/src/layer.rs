//! One stage of the pipeline: an ordered group of neurons with its
//! feedforward and recurrent weight matrices.

use vstd::prelude::*;

use crate::event::{
    event_views, events_wf, is_all_zero, seq_all_zero, seq_binary, ts_increasing, ts_present,
    ts_within, zero_seq, EventModel, SpikeEvent,
};
use crate::neuron::Neuron;

verus! {

// ------------------------------------------------------------------
// Weighted sums
// ------------------------------------------------------------------
/// Feedforward contribution of the first `n` input channels: the sum of the
/// weights of the channels that spiked.
pub open spec fn extra_sum_to(row: Seq<i64>, spikes: Seq<u8>, n: int) -> int
    decreases n,
{
    if n <= 0 {
        0
    } else {
        extra_sum_to(row, spikes, n - 1) + if spikes[n - 1] != 0 {
            row[n - 1] as int
        } else {
            0
        }
    }
}

/// Feedforward contribution of one neuron: the dot product of its weight row
/// with the incoming 0/1 spike vector.
pub open spec fn extra_sum(row: Seq<i64>, spikes: Seq<u8>) -> int {
    extra_sum_to(row, spikes, row.len() as int)
}

/// Recurrent contribution of the first `n` same-layer neurons to neuron
/// `me`: the sum of the weights of the neighbours that fired at the previous
/// instant.  The entry at `me` itself is always left out — a neuron's own
/// prior spike never feeds back into it.
pub open spec fn intra_sum_to(row: Seq<i64>, prev: Seq<u8>, me: int, n: int) -> int
    decreases n,
{
    if n <= 0 {
        0
    } else {
        intra_sum_to(row, prev, me, n - 1) + if n - 1 != me && prev[n - 1] != 0 {
            row[n - 1] as int
        } else {
            0
        }
    }
}

/// Recurrent contribution of the whole layer to neuron `me`.
pub open spec fn intra_sum(row: Seq<i64>, prev: Seq<u8>, me: int) -> int {
    intra_sum_to(row, prev, me, row.len() as int)
}

pub proof fn lemma_extra_sum_to_bound(row: Seq<i64>, spikes: Seq<u8>, n: int)
    requires
        0 <= n,
    ensures
        n * (i64::MIN as int) <= extra_sum_to(row, spikes, n) <= n * (i64::MAX as int),
    decreases n,
{
    if n > 0 {
        lemma_extra_sum_to_bound(row, spikes, n - 1);
        assert(n * (i64::MIN as int) == (n - 1) * (i64::MIN as int) + (i64::MIN as int))
            by (nonlinear_arith);
        assert(n * (i64::MAX as int) == (n - 1) * (i64::MAX as int) + (i64::MAX as int))
            by (nonlinear_arith);
    }
}

pub proof fn lemma_intra_sum_to_bound(row: Seq<i64>, prev: Seq<u8>, me: int, n: int)
    requires
        0 <= n,
    ensures
        n * (i64::MIN as int) <= intra_sum_to(row, prev, me, n) <= n * (i64::MAX as int),
    decreases n,
{
    if n > 0 {
        lemma_intra_sum_to_bound(row, prev, me, n - 1);
        assert(n * (i64::MIN as int) == (n - 1) * (i64::MIN as int) + (i64::MIN as int))
            by (nonlinear_arith);
        assert(n * (i64::MAX as int) == (n - 1) * (i64::MAX as int) + (i64::MAX as int))
            by (nonlinear_arith);
    }
}

/// Computes the feedforward weighted sum of one neuron.  A sum of at most
/// `usize::MAX` values of `i64` always fits in `i128`.
fn weighted_extra(row: &Vec<i64>, spikes: &Vec<u8>) -> (s: i128)
    requires
        row@.len() == spikes@.len(),
    ensures
        s as int == extra_sum(row@, spikes@),
{
    let mut acc: i128 = 0;
    let mut j: usize = 0;
    while j < row.len()
        invariant
            0 <= j <= row@.len(),
            acc as int == extra_sum_to(row@, spikes@, j as int),
        decreases row@.len() - j,
    {
        proof {
            lemma_extra_sum_to_bound(row@, spikes@, j as int);
            lemma_extra_sum_to_bound(row@, spikes@, j + 1);
        }
        if spikes[j] != 0 {
            acc = acc + (row[j] as i128);
        }
        j = j + 1;
    }
    acc
}

/// Computes the recurrent weighted sum of neuron `me`, skipping `me` itself.
fn weighted_intra(row: &Vec<i64>, prev: &Vec<u8>, me: usize) -> (s: i128)
    requires
        row@.len() == prev@.len(),
    ensures
        s as int == intra_sum(row@, prev@, me as int),
{
    let mut acc: i128 = 0;
    let mut j: usize = 0;
    while j < row.len()
        invariant
            0 <= j <= row@.len(),
            acc as int == intra_sum_to(row@, prev@, me as int, j as int),
        decreases row@.len() - j,
    {
        proof {
            lemma_intra_sum_to_bound(row@, prev@, me as int, j as int);
            lemma_intra_sum_to_bound(row@, prev@, me as int, j + 1);
        }
        if j != me && prev[j] != 0 {
            acc = acc + (row[j] as i128);
        }
        j = j + 1;
    }
    acc
}

// ------------------------------------------------------------------
// The layer and its model
// ------------------------------------------------------------------
/// A layer of the network.  `weights[i][j]` connects input channel `j` to
/// neuron `i` (non-negative); `intra_weights[i][j]` connects neuron `j` to
/// neuron `i` within the layer (non-positive, the diagonal is ignored).
pub struct Layer<N: Neuron> {
    neurons: Vec<N>,
    weights: Vec<Vec<i64>>,
    intra_weights: Vec<Vec<i64>>,
    prev_output_spikes: Vec<u8>,
}

/// Mathematical image of a `Layer`.
#[verifier::ext_equal]
pub struct LayerModel<N> {
    pub neurons: Seq<N>,
    pub weights: Seq<Seq<i64>>,
    pub intra_weights: Seq<Seq<i64>>,
    pub prev_output: Seq<u8>,
}

/// The images of a sequence of weight rows.
pub open spec fn mat_views(m: Seq<Vec<i64>>) -> Seq<Seq<i64>> {
    m.map_values(|v: Vec<i64>| v@)
}

impl<N: Neuron> View for Layer<N> {
    type V = LayerModel<N>;

    closed spec fn view(&self) -> LayerModel<N> {
        LayerModel {
            neurons: self.neurons@,
            weights: mat_views(self.weights@),
            intra_weights: mat_views(self.intra_weights@),
            prev_output: self.prev_output_spikes@,
        }
    }
}

impl<N: Neuron> LayerModel<N> {
    /// Number of neurons owned by the layer.
    pub open spec fn n_count(self) -> nat {
        self.neurons.len()
    }

    /// Width of the spike vectors the layer consumes.
    pub open spec fn in_width(self) -> nat {
        self.weights[0].len()
    }

    /// The layer invariant: matrices sized to the neuron count, feedforward
    /// weights non-negative, recurrent weights non-positive, the previous
    /// output one healthy 0/1 entry per neuron.
    pub open spec fn wf(self) -> bool {
        &&& self.neurons.len() > 0
        &&& self.weights.len() == self.neurons.len()
        &&& forall|i: int|
            0 <= i < self.weights.len() ==> (#[trigger] self.weights[i]).len() == self.in_width()
        &&& forall|i: int, j: int|
            0 <= i < self.weights.len() && 0 <= j < self.weights[i].len() ==> #[trigger] self.weights[i][j]
                >= 0
        &&& self.intra_weights.len() == self.neurons.len()
        &&& forall|i: int|
            0 <= i < self.intra_weights.len() ==> (#[trigger] self.intra_weights[i]).len()
                == self.neurons.len()
        &&& forall|i: int, j: int|
            0 <= i < self.intra_weights.len() && 0 <= j < self.intra_weights[i].len()
                ==> #[trigger] self.intra_weights[i][j] <= 0
        &&& self.prev_output.len() == self.neurons.len()
        &&& seq_binary(self.prev_output)
    }

    /// Every neuron of the layer is in a healthy state.  Shapes and signs
    /// (`wf`) are the builder's business; health is the neuron model's, and
    /// the quiescence guarantee rests on it.
    pub open spec fn healthy(self) -> bool {
        forall|i: int| 0 <= i < self.neurons.len() ==> (#[trigger] self.neurons[i]).inv()
    }

    /// The state a layer is put into at the start of a processing run:
    /// every neuron freshly reset, the previous output all zero.
    pub open spec fn reset(self) -> LayerModel<N> {
        LayerModel {
            neurons: Seq::new(self.neurons.len(), |i: int| self.neurons[i].spec_init()),
            weights: self.weights,
            intra_weights: self.intra_weights,
            prev_output: zero_seq(self.neurons.len()),
        }
    }

    /// Feedforward sum presented to neuron `i` for the input `spikes`.
    pub open spec fn extra_of(self, spikes: Seq<u8>, i: int) -> int {
        extra_sum(self.weights[i], spikes)
    }

    /// Recurrent sum presented to neuron `i`.
    pub open spec fn intra_of(self, i: int) -> int {
        intra_sum(self.intra_weights[i], self.prev_output, i)
    }

    /// Whether neuron `i` fires on the event `(t, spikes)`.
    pub open spec fn fires(self, t: u64, spikes: Seq<u8>, i: int) -> bool {
        self.neurons[i].spec_fires(t, self.extra_of(spikes, i), self.intra_of(i))
    }

    /// The layer's output vector for one event.
    pub open spec fn step_out(self, t: u64, spikes: Seq<u8>) -> Seq<u8> {
        Seq::new(
            self.neurons.len(),
            |i: int|
                if self.fires(t, spikes, i) {
                    1u8
                } else {
                    0u8
                },
        )
    }

    /// The layer state after one event: every neuron stepped, the output
    /// vector remembered for the next instant's recurrent sums.
    pub open spec fn step_next(self, t: u64, spikes: Seq<u8>) -> LayerModel<N> {
        LayerModel {
            neurons: Seq::new(
                self.neurons.len(),
                |i: int| self.neurons[i].spec_next(t, self.extra_of(spikes, i), self.intra_of(i)),
            ),
            weights: self.weights,
            intra_weights: self.intra_weights,
            prev_output: self.step_out(t, spikes),
        }
    }

    /// A whole run over an inbound event sequence: the final layer state and
    /// the outbound traffic.  An event whose output vector is all zero is
    /// not forwarded (the sparsity rule for stages past the first).
    pub open spec fn run(self, evs: Seq<EventModel>) -> (LayerModel<N>, Seq<EventModel>)
        decreases evs.len(),
    {
        if evs.len() == 0 {
            (self, Seq::<EventModel>::empty())
        } else {
            let r = self.run(evs.drop_last());
            let e = evs.last();
            let out = r.0.step_out(e.ts, e.spikes);
            let next = r.0.step_next(e.ts, e.spikes);
            if seq_all_zero(out) {
                (next, r.1)
            } else {
                (next, r.1.push(EventModel { ts: e.ts, spikes: out }))
            }
        }
    }
}

// ------------------------------------------------------------------
// Properties of one step and of a whole run
// ------------------------------------------------------------------
/// One step keeps the layer well-formed — and a healthy one healthy —
/// does not touch the weights, does not disturb what a reset restores, and
/// emits one 0/1 entry per neuron.
pub proof fn lemma_step_props<N: Neuron>(m: LayerModel<N>, t: u64, spikes: Seq<u8>)
    requires
        m.wf(),
        spikes.len() == m.in_width(),
    ensures
        m.step_next(t, spikes).wf(),
        m.step_next(t, spikes).weights == m.weights,
        m.step_next(t, spikes).intra_weights == m.intra_weights,
        m.step_next(t, spikes).n_count() == m.n_count(),
        m.step_next(t, spikes).in_width() == m.in_width(),
        forall|i: int|
            0 <= i < m.n_count() ==> (#[trigger] m.step_next(t, spikes).neurons[i]).spec_init()
                == m.neurons[i].spec_init(),
        m.step_out(t, spikes).len() == m.n_count(),
        seq_binary(m.step_out(t, spikes)),
        m.healthy() ==> m.step_next(t, spikes).healthy(),
{
    let nx = m.step_next(t, spikes);
    assert forall|i: int| 0 <= i < m.n_count() implies (#[trigger] nx.neurons[i]).spec_init()
        == m.neurons[i].spec_init() && (m.neurons[i].inv() ==> nx.neurons[i].inv()) by {
        m.neurons[i].lemma_next(t, m.extra_of(spikes, i), m.intra_of(i));
    }
}

/// A reset keeps the layer well-formed — and a healthy one healthy — and
/// resetting twice is the same as resetting once.
pub proof fn lemma_reset_props<N: Neuron>(m: LayerModel<N>)
    requires
        m.wf(),
    ensures
        m.reset().wf(),
        m.reset().weights == m.weights,
        m.reset().intra_weights == m.intra_weights,
        m.reset().n_count() == m.n_count(),
        m.reset().in_width() == m.in_width(),
        forall|i: int|
            0 <= i < m.n_count() ==> (#[trigger] m.reset().neurons[i]).spec_init()
                == m.neurons[i].spec_init(),
        seq_all_zero(m.reset().prev_output),
        m.healthy() ==> m.reset().healthy(),
{
    assert forall|i: int| 0 <= i < m.n_count() implies (#[trigger] m.reset().neurons[i]).spec_init()
        == m.neurons[i].spec_init() && (m.neurons[i].inv() ==> m.reset().neurons[i].inv()) by {
        m.neurons[i].lemma_init();
    }
}

/// A whole run keeps the layer well-formed — and a healthy one healthy —
/// and its weights untouched, does not disturb what a reset restores,
/// emits well-formed traffic, invents no instants, and forwards instants
/// in the order it received them.
pub proof fn lemma_run_props<N: Neuron>(m: LayerModel<N>, evs: Seq<EventModel>)
    requires
        m.wf(),
        events_wf(evs, m.in_width()),
    ensures
        m.run(evs).0.wf(),
        m.run(evs).0.weights == m.weights,
        m.run(evs).0.intra_weights == m.intra_weights,
        m.run(evs).0.n_count() == m.n_count(),
        m.run(evs).0.in_width() == m.in_width(),
        forall|i: int|
            0 <= i < m.n_count() ==> (#[trigger] m.run(evs).0.neurons[i]).spec_init()
                == m.neurons[i].spec_init(),
        events_wf(m.run(evs).1, m.n_count()),
        ts_within(m.run(evs).1, evs),
        ts_increasing(evs) ==> ts_increasing(m.run(evs).1),
        m.healthy() ==> m.run(evs).0.healthy(),
    decreases evs.len(),
{
    if evs.len() > 0 {
        let pre = evs.drop_last();
        let e = evs.last();
        assert(events_wf(pre, m.in_width())) by {
            assert(forall|k: int| 0 <= k < pre.len() ==> pre[k] == evs[k]);
        }
        lemma_run_props(m, pre);
        let r = m.run(pre);
        lemma_step_props(r.0, e.ts, e.spikes);
        assert forall|k: int| 0 <= k < m.run(evs).1.len() implies ts_present(
            evs,
            (#[trigger] m.run(evs).1[k]).ts,
        ) by {
            let out = m.run(evs).1;
            if k < r.1.len() {
                assert(ts_present(pre, r.1[k].ts));
                let j = choose|j: int| 0 <= j < pre.len() && pre[j].ts == r.1[k].ts;
                assert(evs[j].ts == out[k].ts);
            } else {
                assert(evs[evs.len() - 1].ts == out[k].ts);
            }
        }
        if ts_increasing(evs) {
            assert(ts_increasing(pre));
            assert forall|j: int, k: int| 0 <= j < k < m.run(evs).1.len() implies m.run(
                evs,
            ).1[j].ts < m.run(evs).1[k].ts by {
                let out = m.run(evs).1;
                if k < r.1.len() {
                    assert(out[j].ts == r.1[j].ts && out[k].ts == r.1[k].ts);
                } else {
                    assert(out[j].ts == r.1[j].ts);
                    assert(ts_present(pre, r.1[j].ts));
                    let x = choose|x: int| 0 <= x < pre.len() && pre[x].ts == r.1[j].ts;
                    assert(evs[x].ts < e.ts);
                }
            }
        }
    }
}

// ------------------------------------------------------------------
// No contribution, no firing
// ------------------------------------------------------------------
pub proof fn lemma_extra_sum_zero(row: Seq<i64>, spikes: Seq<u8>, n: int)
    requires
        0 <= n <= spikes.len(),
        seq_all_zero(spikes),
    ensures
        extra_sum_to(row, spikes, n) == 0,
    decreases n,
{
    if n > 0 {
        lemma_extra_sum_zero(row, spikes, n - 1);
    }
}

pub proof fn lemma_intra_sum_zero(row: Seq<i64>, prev: Seq<u8>, me: int, n: int)
    requires
        0 <= n <= prev.len(),
        seq_all_zero(prev),
    ensures
        intra_sum_to(row, prev, me, n) == 0,
    decreases n,
{
    if n > 0 {
        lemma_intra_sum_zero(row, prev, me, n - 1);
    }
}

/// A run over all-zero traffic, started with an all-zero previous output,
/// fires nothing: no event leaves the layer, and the previous output stays
/// all zero.
pub proof fn lemma_run_quiet<N: Neuron>(m: LayerModel<N>, evs: Seq<EventModel>)
    requires
        m.wf(),
        m.healthy(),
        events_wf(evs, m.in_width()),
        seq_all_zero(m.prev_output),
        forall|k: int| 0 <= k < evs.len() ==> seq_all_zero((#[trigger] evs[k]).spikes),
    ensures
        m.run(evs).1 == Seq::<EventModel>::empty(),
        seq_all_zero(m.run(evs).0.prev_output),
    decreases evs.len(),
{
    if evs.len() > 0 {
        let pre = evs.drop_last();
        let e = evs.last();
        assert(events_wf(pre, m.in_width())) by {
            assert(forall|k: int| 0 <= k < pre.len() ==> pre[k] == evs[k]);
        }
        lemma_run_quiet(m, pre);
        lemma_run_props(m, pre);
        let r = m.run(pre);
        assert(seq_all_zero(e.spikes));
        assert forall|i: int| 0 <= i < r.0.n_count() implies !r.0.fires(e.ts, e.spikes, i) by {
            lemma_extra_sum_zero(r.0.weights[i], e.spikes, r.0.weights[i].len() as int);
            lemma_intra_sum_zero(r.0.intra_weights[i], r.0.prev_output, i, r.0.intra_weights[i].len() as int);
            r.0.neurons[i].lemma_quiescent(e.ts);
        }
        assert(seq_all_zero(r.0.step_out(e.ts, e.spikes)));
    }
}

// ------------------------------------------------------------------
// The diagonal of the recurrent matrix never matters
// ------------------------------------------------------------------
pub proof fn lemma_intra_sum_diag_free(
    row1: Seq<i64>,
    row2: Seq<i64>,
    prev: Seq<u8>,
    me: int,
    n: int,
)
    requires
        0 <= n <= row1.len(),
        row1.len() == row2.len(),
        forall|j: int| 0 <= j < row1.len() && j != me ==> row1[j] == row2[j],
    ensures
        intra_sum_to(row1, prev, me, n) == intra_sum_to(row2, prev, me, n),
    decreases n,
{
    if n > 0 {
        lemma_intra_sum_diag_free(row1, row2, prev, me, n - 1);
    }
}

/// In a single-neuron layer the recurrent sum is always zero, whatever value
/// the lone (diagonal) entry holds: a neuron never inhibits itself.
pub proof fn lemma_single_neuron_intra_zero(row: Seq<i64>, prev: Seq<u8>)
    requires
        row.len() == 1,
    ensures
        intra_sum(row, prev, 0) == 0,
{
    assert(intra_sum_to(row, prev, 0, 0) == 0);
    assert(intra_sum_to(row, prev, 0, 1) == 0);
}

/// Two layers that agree everywhere except on the diagonal of the recurrent
/// matrix behave identically: same traffic out, same neuron states, same
/// remembered output.  Self-inhibition does not exist.
pub proof fn lemma_run_diag_free<N: Neuron>(
    m1: LayerModel<N>,
    m2: LayerModel<N>,
    evs: Seq<EventModel>,
)
    requires
        m1.wf(),
        m2.wf(),
        events_wf(evs, m1.in_width()),
        m1.neurons == m2.neurons,
        m1.weights == m2.weights,
        m1.prev_output == m2.prev_output,
        m1.intra_weights.len() == m2.intra_weights.len(),
        forall|i: int|
            0 <= i < m1.intra_weights.len() ==> (#[trigger] m1.intra_weights[i]).len() == (
            #[trigger] m2.intra_weights[i]).len(),
        forall|i: int, j: int|
            0 <= i < m1.intra_weights.len() && 0 <= j < m1.intra_weights[i].len() && j != i
                ==> #[trigger] m1.intra_weights[i][j] == #[trigger] m2.intra_weights[i][j],
    ensures
        m1.run(evs).1 == m2.run(evs).1,
        m1.run(evs).0.neurons == m2.run(evs).0.neurons,
        m1.run(evs).0.prev_output == m2.run(evs).0.prev_output,
    decreases evs.len(),
{
    if evs.len() > 0 {
        let pre = evs.drop_last();
        let e = evs.last();
        assert(events_wf(pre, m1.in_width())) by {
            assert(forall|k: int| 0 <= k < pre.len() ==> pre[k] == evs[k]);
        }
        lemma_run_diag_free(m1, m2, pre);
        lemma_run_props(m1, pre);
        lemma_run_props(m2, pre);
        let r1 = m1.run(pre);
        let r2 = m2.run(pre);
        assert forall|i: int| 0 <= i < r1.0.n_count() implies r1.0.extra_of(e.spikes, i)
            == r2.0.extra_of(e.spikes, i) && r1.0.intra_of(i) == r2.0.intra_of(i) by {
            lemma_intra_sum_diag_free(
                r1.0.intra_weights[i],
                r2.0.intra_weights[i],
                r1.0.prev_output,
                i,
                r1.0.intra_weights[i].len() as int,
            );
        }
        assert(r1.0.step_out(e.ts, e.spikes) =~= r2.0.step_out(e.ts, e.spikes));
        assert(r1.0.step_next(e.ts, e.spikes).neurons =~= r2.0.step_next(e.ts, e.spikes).neurons);
    }
}

impl<N: Neuron> Layer<N> {
    /// Builds a layer from its parts.  The builder has already checked the
    /// shapes and the weight signs.
    pub fn new(neurons: Vec<N>, weights: Vec<Vec<i64>>, intra_weights: Vec<Vec<i64>>) -> (r: Self)
        requires
            (LayerModel {
                neurons: neurons@,
                weights: mat_views(weights@),
                intra_weights: mat_views(intra_weights@),
                prev_output: zero_seq(neurons@.len()),
            }).wf(),
        ensures
            r@ == (LayerModel {
                neurons: neurons@,
                weights: mat_views(weights@),
                intra_weights: mat_views(intra_weights@),
                prev_output: zero_seq(neurons@.len()),
            }),
            r@.wf(),
    {
        let num_neurons = neurons.len();
        let prev = crate::event::zero_spikes(num_neurons);
        Self { neurons, weights, intra_weights, prev_output_spikes: prev }
    }

    /// Number of neurons in the layer.
    pub fn get_neurons_number(&self) -> (n: usize)
        ensures
            n == self@.n_count(),
    {
        self.neurons.len()
    }

    /// Width of the spike vectors the layer consumes.
    pub fn input_width(&self) -> (w: usize)
        requires
            self@.wf(),
        ensures
            w == self@.in_width(),
    {
        proof {
            assert(self@.weights[0] == self.weights@[0]@);
        }
        self.weights[0].len()
    }

    /// The neurons themselves.
    pub fn get_neurons(&self) -> (r: &Vec<N>)
        ensures
            r@ == self@.neurons,
    {
        &self.neurons
    }

    /// The feedforward weight matrix.
    pub fn get_weights(&self) -> (r: &Vec<Vec<i64>>)
        ensures
            mat_views(r@) == self@.weights,
    {
        &self.weights
    }

    /// The recurrent weight matrix.
    pub fn get_intra_weights(&self) -> (r: &Vec<Vec<i64>>)
        ensures
            mat_views(r@) == self@.intra_weights,
    {
        &self.intra_weights
    }

    /// Resets the layer for a fresh run: every neuron back to its initial
    /// state, the previous output back to all zero.
    pub fn initialize(&mut self)
        ensures
            final(self)@ == old(self)@.reset(),
    {
        let ghost m = old(self)@;
        let n = self.neurons.len();
        let mut i: usize = 0;
        while i < n
            invariant
                0 <= i <= n,
                n == self.neurons@.len(),
                self.weights@ == old(self).weights@,
                self.intra_weights@ == old(self).intra_weights@,
                self.prev_output_spikes@ == old(self).prev_output_spikes@,
                forall|j: int| 0 <= j < i ==> self.neurons@[j] == m.neurons[j].spec_init(),
                forall|j: int| i <= j < n ==> self.neurons@[j] == m.neurons[j],
            decreases n - i,
        {
            self.neurons[i].initialize();
            i = i + 1;
        }
        self.prev_output_spikes = crate::event::zero_spikes(n);
        proof {
            assert(self@.neurons =~= m.reset().neurons);
            assert(self@ =~= m.reset());
        }
    }

    /// Processes one inbound event: computes both weighted sums for every
    /// neuron, updates each neuron, and remembers the output vector as the
    /// previous output for the next instant.
    pub fn step(&mut self, t: u64, in_spikes: &Vec<u8>) -> (out: Vec<u8>)
        requires
            old(self)@.wf(),
            in_spikes@.len() == old(self)@.in_width(),
        ensures
            final(self)@ == old(self)@.step_next(t, in_spikes@),
            out@ == old(self)@.step_out(t, in_spikes@),
    {
        let ghost m = old(self)@;
        let n = self.neurons.len();
        let mut out: Vec<u8> = Vec::new();
        let mut prev: Vec<u8> = Vec::new();
        let mut i: usize = 0;
        while i < n
            invariant
                0 <= i <= n,
                n == self.neurons@.len(),
                self.weights@ == old(self).weights@,
                self.intra_weights@ == old(self).intra_weights@,
                self.prev_output_spikes@ == old(self).prev_output_spikes@,
                forall|j: int|
                    0 <= j < i ==> self.neurons@[j] == m.neurons[j].spec_next(
                        t,
                        m.extra_of(in_spikes@, j),
                        m.intra_of(j),
                    ),
                forall|j: int| i <= j < n ==> self.neurons@[j] == m.neurons[j],
                out@.len() == i,
                forall|j: int|
                    0 <= j < i ==> out@[j] == (if m.fires(t, in_spikes@, j) {
                        1u8
                    } else {
                        0u8
                    }),
                prev@ == out@,
            decreases n - i,
        {
            proof {
                assert(m.weights[i as int] == self.weights@[i as int]@);
                assert(m.intra_weights[i as int] == self.intra_weights@[i as int]@);
                assert(m.weights[i as int].len() == m.in_width());
                assert(m.intra_weights[i as int].len() == m.n_count());
                assert(self.neurons@[i as int] == m.neurons[i as int]);
            }
            let extra = weighted_extra(&self.weights[i], in_spikes);
            let intra = weighted_intra(&self.intra_weights[i], &self.prev_output_spikes, i);
            let spike = self.neurons[i].compute_v_mem(t, extra, intra);
            out.push(spike);
            prev.push(spike);
            i = i + 1;
        }
        self.prev_output_spikes = prev;
        proof {
            assert(self@.neurons =~= m.step_next(t, in_spikes@).neurons);
            assert(out@ =~= m.step_out(t, in_spikes@));
            assert(self@ =~= m.step_next(t, in_spikes@));
        }
        out
    }

    /// Runs the layer over a whole inbound stream: reset first, then one
    /// step per event in order, forwarding every event whose output vector
    /// is not all zero.
    pub fn process(&mut self, events: &Vec<SpikeEvent>) -> (out: Vec<SpikeEvent>)
        requires
            old(self)@.wf(),
            events_wf(event_views(events@), old(self)@.in_width()),
        ensures
            final(self)@ == old(self)@.reset().run(event_views(events@)).0,
            event_views(out@) == old(self)@.reset().run(event_views(events@)).1,
    {
        proof {
            lemma_reset_props(old(self)@);
        }
        self.initialize();
        let ghost m0 = old(self)@.reset();
        let ghost evm = event_views(events@);
        let mut out: Vec<SpikeEvent> = Vec::new();
        let mut k: usize = 0;
        while k < events.len()
            invariant
                0 <= k <= events@.len(),
                self@ == m0.run(evm.take(k as int)).0,
                event_views(out@) == m0.run(evm.take(k as int)).1,
                self@.wf(),
                self@.in_width() == m0.in_width(),
            decreases events@.len() - k,
        {
            proof {
                assert(events_wf(evm.take(k as int), m0.in_width())) by {
                    assert(forall|j: int| 0 <= j < k ==> evm.take(k as int)[j] == evm[j]);
                }
                lemma_run_props(m0, evm.take(k as int));
                assert(evm[k as int] == events@[k as int]@);
            }
            let e = &events[k];
            let o = self.step(e.ts, &e.spikes);
            let ghost ov = o@;
            let all_zero = is_all_zero(&o);
            if !all_zero {
                let ev = SpikeEvent::new(e.ts, o);
                out.push(ev);
                proof {
                    assert(event_views(out@) =~= event_views(out@.drop_last()).push(ev@));
                }
            }
            proof {
                assert(evm.take(k as int + 1).drop_last() =~= evm.take(k as int));
                assert(evm.take(k as int + 1).last() == evm[k as int]);
                if !seq_all_zero(ov) {
                    assert(event_views(out@) =~= m0.run(evm.take(k as int + 1)).1);
                }
                assert(events_wf(evm.take(k as int + 1), m0.in_width())) by {
                    assert(forall|j: int| 0 <= j <= k ==> evm.take(k as int + 1)[j] == evm[j]);
                }
                lemma_run_props(m0, evm.take(k as int + 1));
            }
            k = k + 1;
        }
        proof {
            assert(evm.take(events@.len() as int) =~= evm);
        }
        out
    }
}

} // verus!
