//! Behavioural laws of the pipeline, checked on concrete networks.

use pds_snn::builder::SnnBuilder;
use pds_snn::event::SpikeEvent;
use pds_snn::layer::Layer;
use pds_snn::lif::LifNeuron;
use pds_snn::lines::convert_line_into_u8;
use pds_snn::neuron::Neuron;
use pds_snn::processor::Processor;
use pds_snn::snn::{SnnError, SNN};

fn n(v_th: i64, v_rest: i64, v_reset: i64, leak: i64) -> LifNeuron {
    LifNeuron::new(v_th, v_rest, v_reset, leak)
}

fn two_layer_net() -> SNN<LifNeuron> {
    SnnBuilder::new(2)
        .add_layer(
            vec![n(300, 50, 100, 0), n(300, 50, 100, 0), n(300, 50, 100, 0)],
            vec![vec![100, 200], vec![300, 400], vec![500, 600]],
            vec![vec![0, -100, -150], vec![-50, 0, -100], vec![-150, -100, 0]],
        )
        .unwrap()
        .add_layer(
            vec![n(300, 50, 100, 0), n(300, 50, 100, 0)],
            vec![vec![300, 200, 100], vec![100, 200, 300]],
            vec![vec![0, -100], vec![-100, 0]],
        )
        .unwrap()
        .build()
        .unwrap()
}

// No contribution, no firing: an all-zero input matrix of any shape yields
// the all-zero matrix of the declared output shape.
#[test]
fn all_zero_input_gives_all_zero_output() {
    let mut net = two_layer_net();
    let out = net
        .process(&vec![vec![0, 0, 0, 0, 0], vec![0, 0, 0, 0, 0]])
        .unwrap();
    assert_eq!(out, vec![vec![0, 0, 0, 0, 0], vec![0, 0, 0, 0, 0]]);
}

// Output duration equals input duration and output row count equals the
// last layer's neuron count, the empty duration included.
#[test]
fn output_shape_follows_input_duration_and_last_layer() {
    let mut net = two_layer_net();
    let out = net.process(&vec![vec![1, 0, 1], vec![0, 1, 1]]).unwrap();
    assert_eq!(out.len(), 2);
    for row in &out {
        assert_eq!(row.len(), 3);
    }
    let empty = net.process(&vec![vec![], vec![]]).unwrap();
    assert_eq!(empty.len(), 2);
    for row in &empty {
        assert_eq!(row.len(), 0);
    }
}

// Temporal order preservation: instants leave the pipeline strictly in the
// order they entered it.
#[test]
fn event_order_is_preserved_end_to_end() {
    let mut net = two_layer_net();
    let events = vec![
        SpikeEvent::new(0, vec![1, 1]),
        SpikeEvent::new(1, vec![0, 0]),
        SpikeEvent::new(2, vec![1, 0]),
        SpikeEvent::new(3, vec![1, 1]),
        SpikeEvent::new(4, vec![0, 1]),
    ];
    let out = net.process_events(events);
    for pair in out.windows(2) {
        assert!(pair[0].ts < pair[1].ts);
    }
    for ev in &out {
        assert!(ev.ts <= 4);
    }
}

// The orchestrator drives a stack of layers directly over encoded
// traffic; an instant on which no neuron fires is absent from the
// outbound traffic rather than carried as an all-zero event, and the
// network wrapper reports exactly what the orchestrator produces.
#[test]
fn orchestrator_reports_only_firing_instants() {
    let make_layer = || {
        Layer::new(
            vec![n(300, 50, 100, 0), n(300, 50, 100, 0)],
            vec![vec![400, 0], vec![0, 400]],
            vec![vec![0, -100], vec![-100, 0]],
        )
    };
    let events = || {
        vec![
            SpikeEvent::new(0, vec![0, 0]),
            SpikeEvent::new(1, vec![1, 1]),
        ]
    };
    let processor = Processor {};
    let mut layers = vec![make_layer()];
    let by_hand = processor.process_events(&mut layers, events());
    let mut net = SNN::new(vec![make_layer()]);
    let by_net = net.process_events(events());
    assert_eq!(by_hand.len(), by_net.len());
    for (a, b) in by_hand.iter().zip(by_net.iter()) {
        assert_eq!(a.ts, b.ts);
        assert_eq!(a.spikes, b.spikes);
    }
    // instant 0 carried no spikes anywhere, so it never appears
    assert_eq!(by_hand.len(), 1);
    assert_eq!(by_hand[0].ts, 1);
    assert_eq!(by_hand[0].spikes, vec![1, 1]);
}

// Recurrent exclusion: in a single-neuron layer the value on the diagonal
// of the recurrent matrix never matters.
#[test]
fn single_neuron_diagonal_weight_has_no_effect() {
    let input = vec![vec![1, 1, 0, 1, 1, 1]];
    let mut with_zero = SnnBuilder::new(1)
        .add_layer(vec![n(150, 0, 0, 50)], vec![vec![200]], vec![vec![0]])
        .unwrap()
        .build()
        .unwrap();
    let mut with_heavy = SnnBuilder::new(1)
        .add_layer(vec![n(150, 0, 0, 50)], vec![vec![200]], vec![vec![-900]])
        .unwrap()
        .build()
        .unwrap();
    assert_eq!(
        with_zero.process(&input).unwrap(),
        with_heavy.process(&input).unwrap()
    );
}

// Reusability: the same built network gives the same answer to the same
// input, run after run.
#[test]
fn processing_twice_gives_identical_output() {
    let mut net = two_layer_net();
    let input = vec![vec![1, 0, 1, 1], vec![0, 1, 1, 0]];
    let first = net.process(&input).unwrap();
    let second = net.process(&input).unwrap();
    assert_eq!(first, second);
}

// Two neurons, input width 2, feedforward weights [[0.1, 0.2], [0.3, 0.4]]
// and recurrent weights [[0, -0.1], [-0.05, 0]] on a scale of a billionth
// per unit; threshold 0.3, rest 0.05, reset 0.1, decay constant 1.  The
// first stage is handed every instant, the all-zero middle one included,
// so the first neuron absorbs its neighbour's inhibition at instant 1
// and, having recovered toward rest by instant 2, crosses the threshold
// there; the second neuron fires at instants 0 and 2.
#[test]
fn two_neuron_reference_scenario() {
    let neuron = LifNeuron::new(300_000_000, 50_000_000, 100_000_000, 1_000_000_000);
    let mut net = SnnBuilder::new(2)
        .add_layer(
            vec![neuron, neuron],
            vec![vec![100_000_000, 200_000_000], vec![300_000_000, 400_000_000]],
            vec![vec![0, -100_000_000], vec![-50_000_000, 0]],
        )
        .unwrap()
        .build()
        .unwrap();
    let out = net.process(&vec![vec![1, 0, 1], vec![0, 0, 1]]).unwrap();
    assert_eq!(out, vec![vec![0, 0, 1], vec![1, 0, 1]]);
}

// A spike value of 2 is rejected as malformed input, and no output comes
// back.
#[test]
fn malformed_spike_value_is_rejected() {
    let mut net = two_layer_net();
    let result = net.process(&vec![vec![0, 2, 0], vec![0, 1, 0]]);
    assert_eq!(result, Err(SnnError::NonBinarySpike));
}

// A layer with a negative feedforward weight never becomes a network.
#[test]
fn negative_feedforward_weight_fails_at_construction() {
    let result = SnnBuilder::new(2).add_layer(
        vec![n(300, 50, 100, 0)],
        vec![vec![100, -1]],
        vec![vec![0]],
    );
    assert!(result.is_err());
}

// Health of the neurons is visible on the built network: it is what the
// quiescence guarantee asks for.
#[test]
fn health_check_sees_every_neuron() {
    assert!(two_layer_net().is_healthy());
    let resting_above_threshold = SnnBuilder::new(1)
        .add_layer(vec![n(300, 500, 100, 0)], vec![vec![100]], vec![vec![0]])
        .unwrap()
        .build()
        .unwrap();
    assert!(!resting_above_threshold.is_healthy());
}

// A network with no layers rejects every call.
#[test]
fn network_without_layers_rejects_processing() {
    let mut net: SNN<LifNeuron> = SNN::new(vec![]);
    let result = net.process(&vec![]);
    assert_eq!(result, Err(SnnError::EmptyNetwork));
}

// Rows of unequal length are rejected before anything runs.
#[test]
fn unequal_row_lengths_are_rejected() {
    let mut net = two_layer_net();
    let result = net.process(&vec![vec![1, 0], vec![1]]);
    assert_eq!(result, Err(SnnError::UnequalRowLengths));
}

// The fixed-point model's linear decay: fire, then decay toward rest over
// a two-instant gap before absorbing the next contribution.
#[test]
fn fixed_point_decay_over_a_gap() {
    let mut neuron = n(300, 50, 100, 20);
    let spike = neuron.compute_v_mem(0, 400, 0);
    assert_eq!(spike, 1);
    assert_eq!(neuron.get_v_mem(), 100);
    let spike = neuron.compute_v_mem(2, 100, 0);
    assert_eq!(spike, 0);
    assert_eq!(neuron.get_v_mem(), 160);
    let spike = neuron.compute_v_mem(3, 200, -100);
    assert_eq!(spike, 0);
    assert_eq!(neuron.get_v_mem(), 240);
}

// Digit lines become spike rows.
#[test]
fn digit_line_becomes_spike_row() {
    assert_eq!(convert_line_into_u8(String::from("0110")), vec![0, 1, 1, 0]);
    assert_eq!(convert_line_into_u8(String::from("907")), vec![9, 0, 7]);
    assert_eq!(convert_line_into_u8(String::from("")), Vec::<u8>::new());
}
