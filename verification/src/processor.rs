//! The pipeline: stages wired in sequence, traffic streamed through in
//! timestamp order.
//!
//! Stages are independent state machines that communicate only through their
//! event streams, in strict FIFO order, so driving them one after the other
//! over the whole stream is observationally the same as running them
//! concurrently with one worker per stage; a caller that wants workers and
//! channels can drive `Layer::step` itself.

use vstd::prelude::*;

use crate::event::{
    event_views, events_wf, ts_increasing, ts_present, ts_within, EventModel, SpikeEvent,
};
use crate::layer::{
    lemma_reset_props, lemma_run_diag_free, lemma_run_props, lemma_run_quiet, Layer, LayerModel,
};
use crate::neuron::Neuron;

verus! {

/// The images of a sequence of layers.
pub open spec fn layer_views<N: Neuron>(ls: Seq<Layer<N>>) -> Seq<LayerModel<N>> {
    ls.map_values(|l: Layer<N>| l@)
}

/// A well-formed network: every layer well-formed, and every layer's input
/// width equal to the previous layer's neuron count.
pub open spec fn net_wf<N: Neuron>(ls: Seq<LayerModel<N>>) -> bool {
    &&& forall|k: int| 0 <= k < ls.len() ==> (#[trigger] ls[k]).wf()
    &&& forall|k: int| 0 < k < ls.len() ==> (#[trigger] ls[k]).in_width() == ls[k - 1].n_count()
}

/// A valid network for the quiescence guarantee: every neuron of every
/// layer is in a healthy state.
pub open spec fn net_healthy<N: Neuron>(ls: Seq<LayerModel<N>>) -> bool {
    forall|k: int| 0 <= k < ls.len() ==> (#[trigger] ls[k]).healthy()
}

/// Width of the traffic leaving the network, when `w` enters it.
pub open spec fn net_out_width<N: Neuron>(ls: Seq<LayerModel<N>>, w: nat) -> nat {
    if ls.len() == 0 {
        w
    } else {
        ls.last().n_count()
    }
}

/// One full pass of the pipeline: each layer in order is reset and then run
/// over the traffic the previous stage produced.  Yields the final layer
/// states and the traffic leaving the last stage.
pub open spec fn net_run<N: Neuron>(ls: Seq<LayerModel<N>>, evs: Seq<EventModel>) -> (
    Seq<LayerModel<N>>,
    Seq<EventModel>,
)
    decreases ls.len(),
{
    if ls.len() == 0 {
        (Seq::<LayerModel<N>>::empty(), evs)
    } else {
        let r = net_run(ls.drop_last(), evs);
        let l = ls.last().reset().run(r.1);
        (r.0.push(l.0), l.1)
    }
}

/// Two networks of the same shape whose neurons reset to the same states.
/// Such networks are indistinguishable to `net_run`.
pub open spec fn net_init_equiv<N: Neuron>(a: Seq<LayerModel<N>>, b: Seq<LayerModel<N>>) -> bool {
    &&& a.len() == b.len()
    &&& forall|k: int|
        0 <= k < a.len() ==> (#[trigger] a[k]).weights == b[k].weights && a[k].intra_weights
            == b[k].intra_weights && a[k].neurons.len() == b[k].neurons.len()
    &&& forall|k: int, i: int|
        0 <= k < a.len() && 0 <= i < a[k].neurons.len() ==> (#[trigger] a[k].neurons[i]).spec_init()
            == b[k].neurons[i].spec_init()
}

/// Instants pass through unchanged: membership in the traffic is only ever
/// thinned, never reordered or invented.
pub proof fn lemma_ts_within_trans(a: Seq<EventModel>, b: Seq<EventModel>, c: Seq<EventModel>)
    requires
        ts_within(a, b),
        ts_within(b, c),
    ensures
        ts_within(a, c),
{
    assert forall|k: int| 0 <= k < a.len() implies ts_present(c, (#[trigger] a[k]).ts) by {
        let j = choose|j: int| 0 <= j < b.len() && b[j].ts == a[k].ts;
        assert(ts_present(c, b[j].ts));
    }
}

/// A full pass keeps the network well-formed and its weights untouched, resets
/// to the same states afterwards as before, emits well-formed traffic of the
/// last stage's width, invents no instants, and preserves their order.
pub proof fn lemma_net_run_props<N: Neuron>(ls: Seq<LayerModel<N>>, evs: Seq<EventModel>, w: nat)
    requires
        net_wf(ls),
        events_wf(evs, w),
        ls.len() > 0 ==> w == ls[0].in_width(),
    ensures
        net_wf(net_run(ls, evs).0),
        net_run(ls, evs).0.len() == ls.len(),
        net_init_equiv(net_run(ls, evs).0, ls),
        events_wf(net_run(ls, evs).1, net_out_width(ls, w)),
        ts_within(net_run(ls, evs).1, evs),
        ts_increasing(evs) ==> ts_increasing(net_run(ls, evs).1),
    decreases ls.len(),
{
    if ls.len() > 0 {
        let pre = ls.drop_last();
        assert(net_wf(pre)) by {
            assert(forall|k: int| 0 <= k < pre.len() ==> pre[k] == ls[k]);
        }
        lemma_net_run_props(pre, evs, w);
        let r = net_run(pre, evs);
        let lst = ls.last();
        assert(net_out_width(pre, w) == lst.in_width()) by {
            if pre.len() > 0 {
                assert(ls[ls.len() - 2] == pre.last());
            }
        }
        lemma_reset_props(lst);
        lemma_run_props(lst.reset(), r.1);
        let l = lst.reset().run(r.1);
        lemma_ts_within_trans(l.1, r.1, evs);
        assert forall|i: int| 0 <= i < lst.n_count() implies (#[trigger] l.0.neurons[i]).spec_init()
            == lst.neurons[i].spec_init() by {
            assert(lst.reset().neurons[i].spec_init() == lst.neurons[i].spec_init());
        }
        assert forall|k: int| 0 <= k < ls.len() implies (#[trigger] net_run(ls, evs).0[k]).wf() by {
            if k < pre.len() {
                assert(net_run(ls, evs).0[k] == r.0[k]);
            }
        }
        assert(net_init_equiv(net_run(ls, evs).0, ls)) by {
            assert(forall|k: int| 0 <= k < pre.len() ==> net_run(ls, evs).0[k] == r.0[k] && ls[k] == pre[k]);
        }
        assert(net_wf(net_run(ls, evs).0)) by {
            assert(forall|k: int| 0 <= k < pre.len() ==> net_run(ls, evs).0[k] == r.0[k] && ls[k] == pre[k]);
            assert(forall|k: int| 0 <= k < ls.len() ==> (#[trigger] net_run(ls, evs).0[k]).in_width() == ls[k].in_width() && net_run(ls, evs).0[k].n_count() == ls[k].n_count());
        }
    }
}

/// A full pass keeps a valid network valid: each layer is reset and updated
/// only through the neuron capability's transitions, which preserve health.
pub proof fn lemma_net_run_healthy<N: Neuron>(ls: Seq<LayerModel<N>>, evs: Seq<EventModel>, w: nat)
    requires
        net_wf(ls),
        net_healthy(ls),
        events_wf(evs, w),
        ls.len() > 0 ==> w == ls[0].in_width(),
    ensures
        net_healthy(net_run(ls, evs).0),
    decreases ls.len(),
{
    if ls.len() > 0 {
        let pre = ls.drop_last();
        assert(net_wf(pre) && net_healthy(pre)) by {
            assert(forall|k: int| 0 <= k < pre.len() ==> pre[k] == ls[k]);
        }
        lemma_net_run_props(pre, evs, w);
        lemma_net_run_healthy(pre, evs, w);
        let r = net_run(pre, evs);
        let lst = ls.last();
        assert(net_out_width(pre, w) == lst.in_width()) by {
            if pre.len() > 0 {
                assert(ls[ls.len() - 2] == pre.last());
            }
        }
        lemma_reset_props(lst);
        lemma_run_props(lst.reset(), r.1);
        assert(net_healthy(net_run(ls, evs).0)) by {
            assert(forall|k: int| 0 <= k < pre.len() ==> net_run(ls, evs).0[k] == r.0[k]);
            assert(net_run(ls, evs).0[ls.len() - 1] == lst.reset().run(r.1).0);
        }
    }
}

/// All-zero traffic in, nothing out: with every input event all zero, the
/// network emits no event at all.
pub proof fn lemma_net_run_quiet<N: Neuron>(ls: Seq<LayerModel<N>>, evs: Seq<EventModel>, w: nat)
    requires
        net_wf(ls),
        net_healthy(ls),
        events_wf(evs, w),
        ls.len() > 0 ==> w == ls[0].in_width(),
        forall|k: int| 0 <= k < evs.len() ==> crate::event::seq_all_zero((#[trigger] evs[k]).spikes),
    ensures
        ls.len() > 0 ==> net_run(ls, evs).1 == Seq::<EventModel>::empty(),
    decreases ls.len(),
{
    if ls.len() > 0 {
        let pre = ls.drop_last();
        assert(net_wf(pre) && net_healthy(pre)) by {
            assert(forall|k: int| 0 <= k < pre.len() ==> pre[k] == ls[k]);
        }
        lemma_net_run_props(pre, evs, w);
        lemma_net_run_quiet(pre, evs, w);
        let r = net_run(pre, evs);
        let lst = ls.last();
        assert(net_out_width(pre, w) == lst.in_width()) by {
            if pre.len() > 0 {
                assert(ls[ls.len() - 2] == pre.last());
            }
        }
        lemma_reset_props(lst);
        if pre.len() == 0 {
            lemma_run_quiet(lst.reset(), r.1);
        } else {
            assert(r.1 == Seq::<EventModel>::empty());
            lemma_run_quiet(lst.reset(), r.1);
        }
    }
}

/// Networks that reset alike run alike: `net_run` yields the same traffic
/// and init-equivalent final states on both.  This is what makes a built
/// network reusable — processing never disturbs what the next reset
/// restores.
pub proof fn lemma_net_run_init_equiv<N: Neuron>(
    a: Seq<LayerModel<N>>,
    b: Seq<LayerModel<N>>,
    evs: Seq<EventModel>,
)
    requires
        net_init_equiv(a, b),
    ensures
        net_run(a, evs).1 == net_run(b, evs).1,
        net_init_equiv(net_run(a, evs).0, net_run(b, evs).0),
    decreases a.len(),
{
    if a.len() > 0 {
        let pa = a.drop_last();
        let pb = b.drop_last();
        assert(net_init_equiv(pa, pb)) by {
            assert(forall|k: int| 0 <= k < pa.len() ==> pa[k] == a[k] && pb[k] == b[k]);
        }
        lemma_net_run_init_equiv(pa, pb, evs);
        let ra = net_run(pa, evs);
        let rb = net_run(pb, evs);
        assert(a.last() == a[a.len() - 1] && b.last() == b[b.len() - 1]);
        assert(a.last().reset() =~= b.last().reset()) by {
            assert(a[a.len() - 1].neurons.len() == b[b.len() - 1].neurons.len());
            assert(forall|i: int|
                0 <= i < a.last().neurons.len() ==> a.last().neurons[i].spec_init()
                    == b.last().neurons[i].spec_init());
            assert(a.last().reset().neurons =~= b.last().reset().neurons);
        }
        let la = a.last().reset().run(ra.1);
        let lb = b.last().reset().run(rb.1);
        assert(la == lb);
        assert(net_init_equiv(net_run(a, evs).0, net_run(b, evs).0)) by {
            assert(forall|k: int|
                0 <= k < ra.0.len() ==> net_run(a, evs).0[k] == ra.0[k] && net_run(b, evs).0[k]
                    == rb.0[k]);
        }
    }
}

/// Two networks that agree everywhere except on the diagonals of their
/// recurrent matrices.  Such networks emit the same traffic: a neuron's own
/// prior spike never reaches it.
pub open spec fn net_diag_equiv<N: Neuron>(a: Seq<LayerModel<N>>, b: Seq<LayerModel<N>>) -> bool {
    &&& a.len() == b.len()
    &&& forall|k: int|
        0 <= k < a.len() ==> (#[trigger] a[k]).neurons == b[k].neurons && a[k].weights
            == b[k].weights && a[k].prev_output == b[k].prev_output && a[k].intra_weights.len()
            == b[k].intra_weights.len()
    &&& forall|k: int, i: int|
        0 <= k < a.len() && 0 <= i < a[k].intra_weights.len() ==> (
        #[trigger] a[k].intra_weights[i]).len() == b[k].intra_weights[i].len()
    &&& forall|k: int, i: int, j: int|
        0 <= k < a.len() && 0 <= i < a[k].intra_weights.len() && 0 <= j < a[k].intra_weights[i].len()
            && j != i ==> (#[trigger] a[k].intra_weights[i][j]) == b[k].intra_weights[i][j]
}

/// Recurrent exclusion, network-wide: two networks that differ only on the
/// diagonals of their recurrent matrices emit identical traffic.
pub proof fn lemma_net_run_diag_free<N: Neuron>(
    a: Seq<LayerModel<N>>,
    b: Seq<LayerModel<N>>,
    evs: Seq<EventModel>,
    w: nat,
)
    requires
        net_wf(a),
        net_wf(b),
        net_diag_equiv(a, b),
        events_wf(evs, w),
        a.len() > 0 ==> w == a[0].in_width(),
    ensures
        net_run(a, evs).1 == net_run(b, evs).1,
    decreases a.len(),
{
    if a.len() > 0 {
        let pa = a.drop_last();
        let pb = b.drop_last();
        assert(net_wf(pa) && net_wf(pb) && net_diag_equiv(pa, pb)) by {
            assert(forall|k: int| 0 <= k < pa.len() ==> pa[k] == a[k] && pb[k] == b[k]);
        }
        lemma_net_run_diag_free(pa, pb, evs, w);
        lemma_net_run_props(pa, evs, w);
        let ra = net_run(pa, evs);
        let rb = net_run(pb, evs);
        let la = a.last();
        let lb = b.last();
        assert(la == a[a.len() - 1] && lb == b[b.len() - 1]);
        assert(net_out_width(pa, w) == la.in_width()) by {
            if pa.len() > 0 {
                assert(a[a.len() - 2] == pa.last());
            }
        }
        lemma_reset_props(la);
        lemma_reset_props(lb);
        assert(la.reset().neurons =~= lb.reset().neurons);
        assert(la.reset().prev_output =~= lb.reset().prev_output);
        lemma_run_diag_free(la.reset(), lb.reset(), ra.1);
    }
}

/// The orchestrator: owns no state of its own; one call drives a whole
/// processing pass over a network's layers.
pub struct Processor {}

impl Processor {
    /// Streams `events` through the layers in order: each stage is reset,
    /// consumes the previous stage's traffic to exhaustion, and hands its
    /// own traffic to the next, the last stage's traffic being the result.
    pub fn process_events<N: Neuron>(
        &self,
        layers: &mut Vec<Layer<N>>,
        events: Vec<SpikeEvent>,
    ) -> (out: Vec<SpikeEvent>)
        requires
            net_wf(layer_views(old(layers)@)),
            old(layers)@.len() > 0 ==> events_wf(
                event_views(events@),
                layer_views(old(layers)@)[0].in_width(),
            ),
        ensures
            layer_views(final(layers)@) == net_run(
                layer_views(old(layers)@),
                event_views(events@),
            ).0,
            event_views(out@) == net_run(layer_views(old(layers)@), event_views(events@)).1,
    {
        let ghost lv = layer_views(old(layers)@);
        let ghost evm = event_views(events@);
        let ghost w0: nat = if lv.len() > 0 {
            lv[0].in_width()
        } else {
            0
        };
        let mut current: Vec<SpikeEvent> = events;
        let mut k: usize = 0;
        while k < layers.len()
            invariant
                0 <= k <= layers@.len(),
                layers@.len() == lv.len(),
                forall|j: int| k <= j < lv.len() ==> (#[trigger] layers@[j])@ == lv[j],
                layer_views(layers@).take(k as int) == net_run(lv.take(k as int), evm).0,
                event_views(current@) == net_run(lv.take(k as int), evm).1,
            decreases layers@.len() - k,
        {
            proof {
                assert(net_wf(lv.take(k as int))) by {
                    assert(forall|j: int| 0 <= j < k ==> lv.take(k as int)[j] == lv[j]);
                }
                lemma_net_run_props(lv.take(k as int), evm, w0);
                assert(net_out_width(lv.take(k as int), w0) == lv[k as int].in_width()) by {
                    if k > 0 {
                        assert(lv.take(k as int).last() == lv[k as int - 1]);
                    }
                }
                assert((layers@[k as int])@ == lv[k as int]);
            }
            let next = layers[k].process(&current);
            current = next;
            proof {
                assert(lv.take(k as int + 1).drop_last() =~= lv.take(k as int));
                assert(lv.take(k as int + 1).last() == lv[k as int]);
                assert(layer_views(layers@).take(k as int + 1) =~= net_run(
                    lv.take(k as int + 1),
                    evm,
                ).0);
            }
            k = k + 1;
        }
        proof {
            assert(lv.take(lv.len() as int) =~= lv);
            assert(layer_views(layers@).take(lv.len() as int) =~= layer_views(layers@));
        }
        current
    }
}

} // verus!
