//! Spike events: the traffic between pipeline stages.

use vstd::prelude::*;

verus! {

/// The firing outcomes of one stage at one instant: `spikes[i]` is 1 if
/// neuron `i` of the producing stage fired at instant `ts`, else 0.
pub struct SpikeEvent {
    pub ts: u64,
    pub spikes: Vec<u8>,
}

/// Mathematical image of a `SpikeEvent`.
#[verifier::ext_equal]
pub struct EventModel {
    pub ts: u64,
    pub spikes: Seq<u8>,
}

impl View for SpikeEvent {
    type V = EventModel;

    open spec fn view(&self) -> EventModel {
        EventModel { ts: self.ts, spikes: self.spikes@ }
    }
}

impl SpikeEvent {
    pub fn new(ts: u64, spikes: Vec<u8>) -> (r: Self)
        ensures
            r@ == (EventModel { ts, spikes: spikes@ }),
    {
        Self { ts, spikes }
    }
}

/// True of a sequence all of whose entries are 0 or 1.
pub open spec fn seq_binary(s: Seq<u8>) -> bool {
    forall|i: int| 0 <= i < s.len() ==> s[i] == 0 || s[i] == 1
}

/// True of a sequence all of whose entries are 0.
pub open spec fn seq_all_zero(s: Seq<u8>) -> bool {
    forall|i: int| 0 <= i < s.len() ==> s[i] == 0
}

/// The images of a sequence of events.
pub open spec fn event_views(s: Seq<SpikeEvent>) -> Seq<EventModel> {
    s.map_values(|e: SpikeEvent| e@)
}

/// The all-zero spike vector of a given width.
pub open spec fn zero_seq(n: nat) -> Seq<u8> {
    Seq::new(n, |i: int| 0u8)
}

/// Well-formed traffic for a stage: every event carries one 0/1 entry per
/// neuron feeding the stage.
pub open spec fn events_wf(evs: Seq<EventModel>, width: nat) -> bool {
    forall|k: int|
        0 <= k < evs.len() ==> (#[trigger] evs[k]).spikes.len() == width && seq_binary(
            evs[k].spikes,
        )
}

/// Timestamps strictly increase along the sequence.
pub open spec fn ts_increasing(evs: Seq<EventModel>) -> bool {
    forall|j: int, k: int| 0 <= j < k < evs.len() ==> evs[j].ts < evs[k].ts
}

/// The instant `ts` is carried by some event of the sequence.
pub open spec fn ts_present(evs: Seq<EventModel>, ts: u64) -> bool {
    exists|j: int| 0 <= j < evs.len() && evs[j].ts == ts
}

/// Every output instant was an input instant: no stage invents time steps.
pub open spec fn ts_within(out: Seq<EventModel>, inp: Seq<EventModel>) -> bool {
    forall|k: int| 0 <= k < out.len() ==> ts_present(inp, (#[trigger] out[k]).ts)
}

/// Builds the all-zero spike vector of width `n`.
pub fn zero_spikes(n: usize) -> (v: Vec<u8>)
    ensures
        v@ == zero_seq(n as nat),
{
    let mut v: Vec<u8> = Vec::new();
    let mut i: usize = 0;
    while i < n
        invariant
            0 <= i <= n,
            v@.len() == i,
            forall|j: int| 0 <= j < i ==> v@[j] == 0,
        decreases n - i,
    {
        v.push(0);
        i = i + 1;
    }
    proof {
        assert(v@ =~= zero_seq(n as nat));
    }
    v
}

/// Scans a spike vector; true exactly when every entry is 0.
pub fn is_all_zero(spikes: &Vec<u8>) -> (r: bool)
    ensures
        r == seq_all_zero(spikes@),
{
    let mut i: usize = 0;
    while i < spikes.len()
        invariant
            0 <= i <= spikes@.len(),
            forall|j: int| 0 <= j < i ==> spikes@[j] == 0,
        decreases spikes@.len() - i,
    {
        if spikes[i] != 0 {
            return false;
        }
        i = i + 1;
    }
    true
}

} // verus!
