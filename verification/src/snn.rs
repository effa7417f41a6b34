//! The network: ordered layers, the event codec, and the processing call.

use vstd::prelude::*;

use crate::event::{
    event_views, events_wf, seq_binary, ts_increasing, ts_present, ts_within, zero_seq,
    zero_spikes, EventModel, SpikeEvent,
};
use crate::layer::{Layer, LayerModel};
use crate::neuron::Neuron;
use crate::processor::{
    layer_views, lemma_net_run_diag_free, lemma_net_run_init_equiv, lemma_net_run_props,
    lemma_net_run_quiet, net_diag_equiv, net_healthy, net_init_equiv, net_out_width, net_run,
    net_wf, Processor,
};

verus! {

// ------------------------------------------------------------------
// Errors
// ------------------------------------------------------------------
/// Why a processing call was rejected.  A rejected call leaves the network
/// untouched and usable.
#[derive(Clone, Copy, Debug, PartialEq, Eq, Structural)]
pub enum SnnError {
    /// The network has no layers; nothing can be processed.
    EmptyNetwork,
    /// The input rows do not all share one length.
    UnequalRowLengths,
    /// The number of input rows differs from the network's input width.
    RowCountMismatch,
    /// An input value other than 0 or 1 was found.
    NonBinarySpike,
}

// ------------------------------------------------------------------
// The codec and its model
// ------------------------------------------------------------------
/// The images of a sequence of spike rows.
pub open spec fn row_views(rows: Seq<Vec<u8>>) -> Seq<Seq<u8>> {
    rows.map_values(|v: Vec<u8>| v@)
}

/// The duration an input matrix declares: the length of its first row.
pub open spec fn rows_duration(rows: Seq<Seq<u8>>) -> nat {
    if rows.len() == 0 {
        0
    } else {
        rows[0].len()
    }
}

/// All rows share one length.
pub open spec fn rows_equal_len(rows: Seq<Seq<u8>>) -> bool {
    forall|i: int| 0 <= i < rows.len() ==> (#[trigger] rows[i]).len() == rows_duration(rows)
}

/// Every entry is 0 or 1.
pub open spec fn rows_binary(rows: Seq<Seq<u8>>) -> bool {
    forall|i: int| 0 <= i < rows.len() ==> seq_binary(#[trigger] rows[i])
}

/// An accepted input matrix for a stage of width `expected`.
pub open spec fn rows_ok(rows: Seq<Seq<u8>>, expected: nat) -> bool {
    rows_equal_len(rows) && rows.len() == expected && rows_binary(rows)
}

/// The error the codec reports for a rejected matrix, checks in order:
/// row lengths, then row count, then values.
pub open spec fn rows_fault(rows: Seq<Seq<u8>>, expected: nat) -> SnnError {
    if !rows_equal_len(rows) {
        SnnError::UnequalRowLengths
    } else if rows.len() != expected {
        SnnError::RowCountMismatch
    } else {
        SnnError::NonBinarySpike
    }
}

/// Encoding: one event per instant, carrying the column of the input matrix
/// at that instant.  Every instant is encoded, an all-zero column too, so
/// that the first stage observes the caller's full declared duration.
pub open spec fn encode_model(rows: Seq<Seq<u8>>) -> Seq<EventModel> {
    Seq::new(
        rows_duration(rows),
        |t: int|
            EventModel { ts: t as u64, spikes: Seq::new(rows.len(), |n: int| rows[n][t]) },
    )
}

/// The column an event sequence determines at instant `t`: the spikes of
/// the event carrying `t`, or all zero when no neuron fired then.
pub open spec fn column_at(evs: Seq<EventModel>, width: nat, t: int) -> Seq<u8> {
    if ts_present(evs, t as u64) {
        evs[choose|k: int| 0 <= k < evs.len() && evs[k].ts == t as u64].spikes
    } else {
        zero_seq(width)
    }
}

/// Decoding: the `width` by `duration` matrix scattered from the events.
pub open spec fn decoded_output(evs: Seq<EventModel>, width: nat, duration: nat) -> Seq<Seq<u8>> {
    Seq::new(width, |n: int| Seq::new(duration, |t: int| column_at(evs, width, t)[n]))
}

/// What one processing call computes: encode the input, stream it through
/// the reset layers, decode the last stage's traffic into the output shape.
pub open spec fn spec_process<N: Neuron>(ls: Seq<LayerModel<N>>, rows: Seq<Seq<u8>>) -> Seq<
    Seq<u8>,
> {
    decoded_output(
        net_run(ls, encode_model(rows)).1,
        net_out_width(ls, rows.len()),
        rows_duration(rows),
    )
}

/// Copies a spike vector.
fn copy_spikes(v: &Vec<u8>) -> (r: Vec<u8>)
    ensures
        r@ == v@,
{
    let mut r: Vec<u8> = Vec::new();
    let mut i: usize = 0;
    while i < v.len()
        invariant
            0 <= i <= v@.len(),
            r@ == v@.take(i as int),
        decreases v@.len() - i,
    {
        r.push(v[i]);
        proof {
            assert(r@ =~= v@.take(i as int + 1));
        }
        i = i + 1;
    }
    proof {
        assert(v@.take(v@.len() as int) =~= v@);
    }
    r
}

/// Checks and encodes a caller's input matrix for a stage of width
/// `expected_rows`: rejects rows of unequal length, a wrong row count, and
/// any value other than 0 or 1; otherwise yields one event per instant.
pub fn encode_spikes(spikes: &Vec<Vec<u8>>, expected_rows: usize) -> (r: Result<
    Vec<SpikeEvent>,
    SnnError,
>)
    ensures
        match r {
            Ok(evs) => rows_ok(row_views(spikes@), expected_rows as nat) && event_views(evs@)
                == encode_model(row_views(spikes@)),
            Err(e) => !rows_ok(row_views(spikes@), expected_rows as nat) && e == rows_fault(
                row_views(spikes@),
                expected_rows as nat,
            ),
        },
{
    let ghost rv = row_views(spikes@);
    let rows = spikes.len();
    let duration: usize = if rows == 0 {
        0
    } else {
        spikes[0].len()
    };
    proof {
        assert(rows > 0 ==> rv[0] == spikes@[0]@);
        assert(duration == rows_duration(rv));
    }
    let mut i: usize = 0;
    while i < rows
        invariant
            0 <= i <= rows,
            forall|j: int| 0 <= j < i ==> (#[trigger] rv[j]).len() == duration,
        decreases rows - i,
    {
        proof {
            assert(rv[i as int] == spikes@[i as int]@);
        }
        if spikes[i].len() != duration {
            proof {
                assert(!rows_equal_len(rv));
            }
            return Err(SnnError::UnequalRowLengths);
        }
        i = i + 1;
    }
    proof {
        assert(rows_equal_len(rv));
    }
    if rows != expected_rows {
        return Err(SnnError::RowCountMismatch);
    }
    let mut events: Vec<SpikeEvent> = Vec::new();
    let mut t: usize = 0;
    while t < duration
        invariant
            0 <= t <= duration,
            event_views(events@) == encode_model(rv).take(t as int),
            forall|n: int, tt: int|
                0 <= n < rows && 0 <= tt < t ==> rv[n][tt] == 0 || rv[n][tt] == 1,
        decreases duration - t,
    {
        let mut tv: Vec<u8> = Vec::new();
        let mut n: usize = 0;
        while n < rows
            invariant
                0 <= n <= rows,
                tv@.len() == n,
                forall|m: int| 0 <= m < n ==> tv@[m] == rv[m][t as int],
                forall|m: int| 0 <= m < n ==> rv[m][t as int] == 0 || rv[m][t as int] == 1,
            decreases rows - n,
        {
            proof {
                assert(rv[n as int] == spikes@[n as int]@);
            }
            let v = spikes[n][t];
            if v != 0 && v != 1 {
                proof {
                    assert(!seq_binary(rv[n as int]));
                    assert(!rows_binary(rv));
                }
                return Err(SnnError::NonBinarySpike);
            }
            tv.push(v);
            n = n + 1;
        }
        proof {
            assert(tv@ =~= encode_model(rv)[t as int].spikes);
        }
        let ev = SpikeEvent::new(t as u64, tv);
        events.push(ev);
        proof {
            assert(event_views(events@) =~= encode_model(rv).take(t as int + 1));
        }
        t = t + 1;
    }
    proof {
        assert(encode_model(rv).take(duration as int) =~= encode_model(rv));
        assert(rows_binary(rv));
    }
    Ok(events)
}

/// Decodes the traffic leaving the last stage into the declared output
/// shape: an instant carried by no event stays an all-zero column.
pub fn decode_spikes(events: &Vec<SpikeEvent>, width: usize, duration: usize) -> (out: Vec<
    Vec<u8>,
>)
    requires
        events_wf(event_views(events@), width as nat),
        ts_increasing(event_views(events@)),
        forall|k: int|
            0 <= k < events@.len() ==> (#[trigger] event_views(events@)[k]).ts < duration,
    ensures
        row_views(out@) == decoded_output(event_views(events@), width as nat, duration as nat),
{
    let ghost evm = event_views(events@);
    // first pass: one column per instant, in instant order
    let mut cols: Vec<Vec<u8>> = Vec::new();
    let mut j: usize = 0;
    let mut t: usize = 0;
    while t < duration
        invariant
            0 <= t <= duration,
            0 <= j <= evm.len(),
            forall|k: int| 0 <= k < j ==> (#[trigger] evm[k]).ts < t,
            forall|k: int| j <= k < evm.len() ==> (#[trigger] evm[k]).ts >= t,
            cols@.len() == t,
            forall|tt: int|
                0 <= tt < t ==> (#[trigger] cols@[tt])@ == column_at(evm, width as nat, tt),
        decreases duration - t,
    {
        proof {
            assert(j < evm.len() ==> evm[j as int] == events@[j as int]@);
        }
        if j < events.len() && events[j].ts == t as u64 {
            proof {
                let k0 = choose|k: int| 0 <= k < evm.len() && evm[k].ts == t as u64;
                assert(ts_present(evm, t as u64));
                assert(k0 == j) by {
                    if k0 < j {
                        assert(evm[k0].ts < t);
                    }
                    if k0 > j as int {
                        assert(evm[j as int].ts < evm[k0].ts);
                    }
                }
            }
            let col = copy_spikes(&events[j].spikes);
            cols.push(col);
            j = j + 1;
        } else {
            proof {
                assert(!ts_present(evm, t as u64)) by {
                    if ts_present(evm, t as u64) {
                        let k0 = choose|k: int| 0 <= k < evm.len() && evm[k].ts == t as u64;
                        assert(k0 >= j);
                        if j < evm.len() && k0 > j as int {
                            assert(evm[j as int].ts < evm[k0].ts);
                        }
                    }
                }
            }
            let col = zero_spikes(width);
            cols.push(col);
        }
        t = t + 1;
    }
    // second pass: transpose the columns into one row per output neuron
    let mut out: Vec<Vec<u8>> = Vec::new();
    let mut n: usize = 0;
    while n < width
        invariant
            0 <= n <= width,
            out@.len() == n,
            cols@.len() == duration,
            forall|tt: int|
                0 <= tt < duration ==> (#[trigger] cols@[tt])@ == column_at(evm, width as nat, tt),
            forall|m: int|
                0 <= m < n ==> (#[trigger] out@[m])@ == decoded_output(
                    evm,
                    width as nat,
                    duration as nat,
                )[m],
        decreases width - n,
    {
        let mut row: Vec<u8> = Vec::new();
        let mut t2: usize = 0;
        while t2 < duration
            invariant
                0 <= t2 <= duration,
                row@.len() == t2,
                forall|tt: int|
                    0 <= tt < t2 ==> row@[tt] == column_at(evm, width as nat, tt)[n as int],
            decreases duration - t2,
        {
            proof {
                assert((cols@[t2 as int])@ == column_at(evm, width as nat, t2 as int));
                assert(column_at(evm, width as nat, t2 as int).len() == width) by {
                    if ts_present(evm, t2 as u64) {
                        let k0 = choose|k: int|
                            0 <= k < evm.len() && evm[k].ts == t2 as u64;
                        assert(evm[k0].spikes.len() == width);
                    }
                }
            }
            row.push(cols[t2][n]);
            t2 = t2 + 1;
        }
        proof {
            assert(row@ =~= decoded_output(evm, width as nat, duration as nat)[n as int]);
        }
        out.push(row);
        n = n + 1;
    }
    proof {
        assert(row_views(out@) =~= decoded_output(evm, width as nat, duration as nat));
    }
    out
}

// ------------------------------------------------------------------
// The network
// ------------------------------------------------------------------
/// A spiking neural network: an ordered sequence of layers, immutable in
/// structure once built.  Only the layers' internal dynamic state changes,
/// and every processing call resets it first, so one built network serves
/// any number of independent calls.
pub struct SNN<N: Neuron> {
    layers: Vec<Layer<N>>,
}

impl<N: Neuron> View for SNN<N> {
    type V = Seq<LayerModel<N>>;

    closed spec fn view(&self) -> Seq<LayerModel<N>> {
        layer_views(self.layers@)
    }
}

impl<N: Neuron> SNN<N> {
    /// Wires the given layers in order.  The builder has already checked
    /// that each layer is well-formed and that the widths chain.
    pub fn new(layers: Vec<Layer<N>>) -> (r: Self)
        requires
            net_wf(layer_views(layers@)),
        ensures
            r@ == layer_views(layers@),
    {
        Self { layers }
    }

    /// Whether every neuron of every layer reports a healthy state: the
    /// quiescence guarantee — no contribution, no firing — holds of such
    /// networks.
    pub fn is_healthy(&self) -> (r: bool)
        ensures
            r == net_healthy(self@),
    {
        let mut k: usize = 0;
        while k < self.layers.len()
            invariant
                0 <= k <= self@.len(),
                forall|j: int| 0 <= j < k ==> (#[trigger] self@[j]).healthy(),
            decreases self@.len() - k,
        {
            proof {
                assert((self.layers@[k as int])@ == self@[k as int]);
            }
            let neurons = self.layers[k].get_neurons();
            let mut i: usize = 0;
            while i < neurons.len()
                invariant
                    0 <= i <= neurons@.len(),
                    forall|j: int| 0 <= j < i ==> (#[trigger] neurons@[j]).inv(),
                decreases neurons@.len() - i,
            {
                if !neurons[i].is_valid() {
                    return false;
                }
                i = i + 1;
            }
            k = k + 1;
        }
        true
    }

    /// Number of layers.
    pub fn get_layers_number(&self) -> (n: usize)
        ensures
            n == self@.len(),
    {
        self.layers.len()
    }

    /// Takes the network apart into its layers, in order — for a caller
    /// that wants to drive the stages itself, one worker per layer.
    pub fn into_layers(self) -> (r: Vec<Layer<N>>)
        ensures
            layer_views(r@) == self@,
    {
        self.layers
    }

    /// The layers themselves.
    pub fn get_layers(&self) -> (r: &Vec<Layer<N>>)
        ensures
            layer_views(r@) == self@,
    {
        &self.layers
    }

    /// Streams already-encoded events through the network.  Instants come
    /// out in the order they went in, and none is invented.
    pub fn process_events(&mut self, events: Vec<SpikeEvent>) -> (out: Vec<SpikeEvent>)
        requires
            net_wf(old(self)@),
            old(self)@.len() > 0 ==> events_wf(event_views(events@), old(self)@[0].in_width()),
        ensures
            final(self)@ == net_run(old(self)@, event_views(events@)).0,
            event_views(out@) == net_run(old(self)@, event_views(events@)).1,
            ts_increasing(event_views(events@)) ==> ts_increasing(event_views(out@)),
            ts_within(event_views(out@), event_views(events@)),
    {
        let processor = Processor {  };
        let out = processor.process_events(&mut self.layers, events);
        proof {
            if old(self)@.len() > 0 {
                lemma_net_run_props(old(self)@, event_views(events@), old(self)@[0].in_width());
            }
        }
        out
    }

    /// One full processing call: checks the input matrix (one 0/1 row per
    /// input channel, all rows one length), encodes it, streams it through
    /// the network, and decodes the result — one row per last-layer neuron,
    /// one column per instant, exactly the input's duration.  A rejected
    /// input reports which check failed and leaves the network unchanged.
    pub fn process(&mut self, spikes: &Vec<Vec<u8>>) -> (r: Result<Vec<Vec<u8>>, SnnError>)
        requires
            net_wf(old(self)@),
        ensures
            net_wf(final(self)@),
            net_init_equiv(final(self)@, old(self)@),
            match r {
                Ok(out) => {
                    &&& old(self)@.len() > 0
                    &&& rows_ok(row_views(spikes@), old(self)@[0].in_width())
                    &&& row_views(out@) == spec_process(old(self)@, row_views(spikes@))
                    &&& final(self)@ == net_run(
                        old(self)@,
                        encode_model(row_views(spikes@)),
                    ).0
                    &&& out@.len() == old(self)@.last().n_count()
                    &&& forall|n: int|
                        0 <= n < out@.len() ==> (#[trigger] out@[n])@.len() == rows_duration(
                            row_views(spikes@),
                        )
                },
                Err(e) => {
                    &&& !(old(self)@.len() > 0 && rows_ok(
                        row_views(spikes@),
                        old(self)@[0].in_width(),
                    ))
                    &&& e == (if old(self)@.len() == 0 {
                        SnnError::EmptyNetwork
                    } else {
                        rows_fault(row_views(spikes@), old(self)@[0].in_width())
                    })
                    &&& final(self)@ == old(self)@
                },
            },
    {
        let ghost ls = old(self)@;
        let ghost rv = row_views(spikes@);
        if self.layers.len() == 0 {
            return Err(SnnError::EmptyNetwork);
        }
        proof {
            assert((self.layers@[0])@ == ls[0]);
            assert(ls[0].wf());
        }
        let in_dim = self.layers[0].input_width();
        let duration: usize = if spikes.len() == 0 {
            0
        } else {
            proof {
                assert(rv[0] == spikes@[0]@);
            }
            spikes[0].len()
        };
        let events = match encode_spikes(spikes, in_dim) {
            Ok(events) => events,
            Err(e) => {
                return Err(e);
            },
        };
        let ghost evm = event_views(events@);
        proof {
            assert(events_wf(evm, ls[0].in_width()) && ts_increasing(evm)) by {
                assert(forall|k: int|
                    0 <= k < evm.len() ==> (#[trigger] evm[k]).ts == k as u64 && evm[k].spikes.len()
                        == rv.len() && seq_binary(evm[k].spikes));
            }
        }
        let out_events = self.process_events(events);
        proof {
            lemma_net_run_props(ls, evm, ls[0].in_width());
            assert((self.layers@[self.layers@.len() - 1])@ == self@.last());
            assert(forall|k: int|
                0 <= k < event_views(out_events@).len() ==> (
                #[trigger] event_views(out_events@)[k]).ts < duration) by {
                assert forall|k: int| 0 <= k < event_views(out_events@).len() implies (
                #[trigger] event_views(out_events@)[k]).ts < duration by {
                    assert(ts_present(evm, event_views(out_events@)[k].ts));
                    let j = choose|j: int|
                        0 <= j < evm.len() && evm[j].ts == event_views(out_events@)[k].ts;
                    assert(evm[j].ts == j as u64);
                }
            }
        }
        let out_dim = self.layers[self.layers.len() - 1].get_neurons_number();
        let decoded = decode_spikes(&out_events, out_dim, duration);
        proof {
            assert(out_dim == ls.last().n_count());
            assert(duration == rows_duration(rv));
            assert(row_views(decoded@) == spec_process(ls, rv));
            assert(decoded@.len() == ls.last().n_count());
            assert forall|n: int| 0 <= n < decoded@.len() implies (#[trigger] decoded@[n])@.len()
                == rows_duration(rv) by {
                assert(row_views(decoded@)[n] == decoded@[n]@);
            }
        }
        Ok(decoded)
    }
}

// ------------------------------------------------------------------
// Laws of the processing call
// ------------------------------------------------------------------
/// No contribution, no firing: a valid network — one whose every neuron is
/// healthy — given an all-zero input matrix of any accepted shape answers
/// with the all-zero matrix of the declared output shape.
pub proof fn lemma_process_all_zero<N: Neuron>(ls: Seq<LayerModel<N>>, rows: Seq<Seq<u8>>)
    requires
        net_wf(ls),
        net_healthy(ls),
        ls.len() > 0,
        rows_equal_len(rows),
        rows.len() == ls[0].in_width(),
        forall|i: int| 0 <= i < rows.len() ==> crate::event::seq_all_zero(#[trigger] rows[i]),
    ensures
        spec_process(ls, rows) == Seq::new(
            ls.last().n_count(),
            |n: int| zero_seq(rows_duration(rows)),
        ),
{
    let evs = encode_model(rows);
    assert(events_wf(evs, ls[0].in_width()));
    assert(forall|k: int|
        0 <= k < evs.len() ==> crate::event::seq_all_zero((#[trigger] evs[k]).spikes));
    lemma_net_run_quiet(ls, evs, ls[0].in_width());
    let out = net_run(ls, evs).1;
    assert(out.len() == 0);
    assert forall|t: int| 0 <= t < rows_duration(rows) implies column_at(
        out,
        net_out_width(ls, rows.len()),
        t,
    ) == zero_seq(net_out_width(ls, rows.len())) by {
        assert(!ts_present(out, t as u64));
    }
    assert(spec_process(ls, rows) =~~= Seq::new(
        ls.last().n_count(),
        |n: int| zero_seq(rows_duration(rows)),
    ));
}

/// Recurrent exclusion: networks that differ only on the diagonals of
/// their recurrent matrices compute the same output — self-inhibition does
/// not exist, whatever value a diagonal entry holds.
pub proof fn lemma_process_diag_free<N: Neuron>(
    a: Seq<LayerModel<N>>,
    b: Seq<LayerModel<N>>,
    rows: Seq<Seq<u8>>,
)
    requires
        net_wf(a),
        net_wf(b),
        net_diag_equiv(a, b),
        rows_equal_len(rows),
        rows_binary(rows),
        a.len() > 0 ==> rows.len() == a[0].in_width(),
    ensures
        spec_process(a, rows) == spec_process(b, rows),
{
    let evs = encode_model(rows);
    assert(events_wf(evs, rows.len() as nat));
    lemma_net_run_diag_free(a, b, evs, rows.len() as nat);
    if a.len() > 0 {
        assert(a.last().n_count() == b.last().n_count());
    }
}

/// Reusability: two networks that reset alike — in particular, one network
/// before and after any processing call — compute the same output on the
/// same input.
pub proof fn lemma_process_reusable<N: Neuron>(
    a: Seq<LayerModel<N>>,
    b: Seq<LayerModel<N>>,
    rows: Seq<Seq<u8>>,
)
    requires
        net_init_equiv(a, b),
    ensures
        spec_process(a, rows) == spec_process(b, rows),
{
    lemma_net_run_init_equiv(a, b, encode_model(rows));
    if a.len() > 0 {
        assert(a.last().n_count() == b.last().n_count());
    }
}

} // verus!
