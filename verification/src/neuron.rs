//! The neuron capability: what a layer asks of any neuron model.

use vstd::prelude::*;

verus! {

/// A neuron of a layer: a small state machine that is updated once for every
/// instant its layer observes, and answers with "fired" (1) or "quiet" (0).
///
/// The update is presented with the instant `t` and the two weighted sums the
/// layer computed for this neuron: the feedforward contribution of the
/// previous stage's spikes (non-negative weights) and the recurrent
/// contribution of its own layer's previous output (non-positive weights,
/// the neuron's own previous spike always excluded).  A model applies its
/// decay for the time elapsed since its own last update, adds the two sums,
/// and compares against its threshold.
///
/// The ghost side of the capability fixes the model as a deterministic
/// transition system: `spec_next`/`spec_fires` describe one update,
/// `spec_init` the construction-time state that `initialize` restores, and
/// `inv` the states the model regards as healthy.  The laws tie them
/// together; the layer engine relies on them for its own guarantees:
/// a healthy neuron given no contribution at all does not fire, and
/// resetting is insensitive to whatever updates happened before.
pub trait Neuron: Sized {
    /// States in which the model behaves as documented (for instance, the
    /// membrane potential has not been driven past the firing threshold).
    spec fn inv(&self) -> bool;

    /// The state `initialize` restores: a function of the construction-time
    /// parameters only.
    spec fn spec_init(&self) -> Self;

    /// The state after one update at instant `t` with the given sums.
    spec fn spec_next(&self, t: u64, extra: int, intra: int) -> Self;

    /// Whether the update at instant `t` with the given sums fires.
    spec fn spec_fires(&self, t: u64, extra: int, intra: int) -> bool;

    /// Resetting a freshly reset neuron changes nothing, and resetting a
    /// healthy neuron yields a healthy one.
    proof fn lemma_init(&self)
        ensures
            self.spec_init().spec_init() == self.spec_init(),
            self.inv() ==> self.spec_init().inv(),
    ;

    /// An update never disturbs what a later reset restores, and keeps a
    /// healthy neuron healthy.
    proof fn lemma_next(&self, t: u64, extra: int, intra: int)
        ensures
            self.spec_next(t, extra, intra).spec_init() == self.spec_init(),
            self.inv() ==> self.spec_next(t, extra, intra).inv(),
    ;

    /// No contribution, no firing: a healthy neuron whose two sums are both
    /// zero stays quiet.
    proof fn lemma_quiescent(&self, t: u64)
        requires
            self.inv(),
        ensures
            !self.spec_fires(t, 0, 0),
    ;

    /// Whether the neuron is in a healthy state; a caller that wants the
    /// network-wide quiescence guarantee checks this on every neuron it
    /// hands to a builder.
    fn is_valid(&self) -> (r: bool)
        ensures
            r == self.inv(),
    ;

    /// One update: apply the decay for the elapsed time, add the two sums,
    /// fire (1) and reset the potential if the threshold is exceeded, else
    /// stay quiet (0).
    fn compute_v_mem(&mut self, t: u64, extra_weighted_sum: i128, intra_weighted_sum: i128) -> (
        spike: u8
    )
        ensures
            *final(self) == old(self).spec_next(
                t,
                extra_weighted_sum as int,
                intra_weighted_sum as int,
            ),
            spike == (if old(self).spec_fires(t, extra_weighted_sum as int, intra_weighted_sum as int) {
                1u8
            } else {
                0u8
            }),
    ;

    /// Restore the construction-time initial state.
    fn initialize(&mut self)
        ensures
            *final(self) == old(self).spec_init(),
    ;
}

} // verus!
