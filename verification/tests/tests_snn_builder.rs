//! Construction and validation of networks, using the library's own
//! fixed-point leaky integrate-and-fire model.  Weight values are on a
//! scale of one thousandth per unit.

use pds_snn::builder::{BuildError, SnnBuilder};
use pds_snn::lif::LifNeuron;

// Checks the construction-time parameters of a fixed-point neuron.
fn verify_neuron(lif_neuron: &LifNeuron, v_th: i64, v_rest: i64, v_reset: i64, leak: i64) -> bool {
    if lif_neuron.get_v_th() != v_th {
        return false;
    }
    if lif_neuron.get_v_rest() != v_rest {
        return false;
    }
    if lif_neuron.get_v_reset() != v_reset {
        return false;
    }
    if lif_neuron.get_leak() != leak {
        return false;
    }
    if lif_neuron.get_v_mem() != v_rest as i128 {
        return false;
    }
    if lif_neuron.get_ts() != 0u64 {
        return false;
    }
    true
}

#[test]
fn test_add_one_layer() {
    let snn = SnnBuilder::new(3)
        .add_layer(
            vec![LifNeuron::new(300, 50, 100, 0)],
            vec![vec![100, 200, 300]],
            vec![vec![0]],
        )
        .unwrap()
        .build()
        .unwrap();
    assert_eq!(snn.get_layers_number(), 1);
}

#[test]
fn test_add_more_than_one_layer() {
    let n = || LifNeuron::new(300, 50, 100, 0);
    let snn = SnnBuilder::new(1)
        .add_layer(vec![n()], vec![vec![100]], vec![vec![0]])
        .unwrap()
        .add_layer(vec![n()], vec![vec![200]], vec![vec![0]])
        .unwrap()
        .add_layer(vec![n()], vec![vec![300]], vec![vec![0]])
        .unwrap()
        .add_layer(vec![n()], vec![vec![400]], vec![vec![0]])
        .unwrap()
        .build()
        .unwrap();
    assert_eq!(snn.get_layers_number(), 4);
}

#[test]
fn test_add_weights_to_layers() {
    let snn = SnnBuilder::new(3)
        .add_layer(
            vec![
                LifNeuron::new(300, 50, 100, 0),
                LifNeuron::new(300, 50, 100, 0),
            ],
            vec![vec![100, 200, 300], vec![400, 500, 600]],
            vec![vec![0, -200], vec![-900, 0]],
        )
        .unwrap()
        .add_layer(
            vec![LifNeuron::new(450, 70, 100, 0)],
            vec![vec![200, 300]],
            vec![vec![0]],
        )
        .unwrap()
        .build()
        .unwrap();

    let layers = snn.get_layers();
    assert_eq!(layers.len(), 2);
    assert_eq!(
        layers[0].get_weights(),
        &vec![vec![100, 200, 300], vec![400, 500, 600]]
    );
    assert_eq!(layers[1].get_weights(), &vec![vec![200, 300]]);
    assert_eq!(
        layers[0].get_intra_weights(),
        &vec![vec![0, -200], vec![-900, 0]]
    );
    assert_eq!(layers[1].get_intra_weights(), &vec![vec![0]]);
}

#[test]
fn test_layer_with_one_neuron() {
    let snn = SnnBuilder::new(5)
        .add_layer(
            vec![LifNeuron::new(120, 80, 30, 0)],
            vec![vec![300, 500, 100, 600, 300]],
            vec![vec![0]],
        )
        .unwrap()
        .build()
        .unwrap();

    let layers = snn.get_layers();
    assert_eq!(layers.len(), 1);
    let neurons = layers[0].get_neurons();
    assert_eq!(neurons.len(), 1);
    assert!(verify_neuron(&neurons[0], 120, 80, 30, 0));
    assert_eq!(layers[0].get_weights(), &vec![vec![300, 500, 100, 600, 300]]);
}

#[test]
fn test_neurons_with_same_parameters1() {
    let snn = SnnBuilder::new(5)
        .add_layer(
            vec![
                LifNeuron::new(120, 80, 30, 640),
                LifNeuron::new(120, 80, 30, 640),
            ],
            vec![vec![300, 500, 100, 600, 300], vec![200, 300, 100, 400, 200]],
            vec![vec![0, -300], vec![-200, 0]],
        )
        .unwrap()
        .build()
        .unwrap();

    let neurons = snn.get_layers()[0].get_neurons();
    assert_eq!(neurons.len(), 2);
    for neuron in neurons {
        assert!(verify_neuron(neuron, 120, 80, 30, 640));
    }
}

#[test]
fn test_neurons_with_same_parameters2() {
    let snn = SnnBuilder::new(5)
        .add_layer_with_same_neurons(
            LifNeuron::new(120, 80, 30, 640),
            2,
            vec![vec![300, 500, 100, 600, 300], vec![200, 300, 100, 400, 200]],
            vec![vec![0, -300], vec![-200, 0]],
        )
        .unwrap()
        .build()
        .unwrap();

    let neurons = snn.get_layers()[0].get_neurons();
    assert_eq!(neurons.len(), 2);
    for neuron in neurons {
        assert!(verify_neuron(neuron, 120, 80, 30, 640));
    }
}

#[test]
fn test_layer_with_more_than_one_neuron() {
    let snn = SnnBuilder::new(2)
        .add_layer(
            vec![
                LifNeuron::new(127, 12, 78, 0),
                LifNeuron::new(120, 22, 31, 0),
                LifNeuron::new(30, 5, 10, 0),
            ],
            vec![vec![120, 500], vec![530, 430], vec![110, 20]],
            vec![vec![0, -300, -100], vec![-400, 0, -200], vec![-900, -100, 0]],
        )
        .unwrap()
        .build()
        .unwrap();

    let layers = snn.get_layers();
    assert_eq!(layers.len(), 1);
    let neurons = layers[0].get_neurons();
    assert_eq!(neurons.len(), 3);
    assert!(verify_neuron(&neurons[0], 127, 12, 78, 0));
    assert!(verify_neuron(&neurons[1], 120, 22, 31, 0));
    assert!(verify_neuron(&neurons[2], 30, 5, 10, 0));
}

#[test]
fn test_intra_layer_weights_with_one_neuron() {
    let snn = SnnBuilder::new(1)
        .add_layer(
            vec![LifNeuron::new(300, 50, 100, 0)],
            vec![vec![100]],
            vec![vec![-500]],
        )
        .unwrap()
        .build()
        .unwrap();
    assert_eq!(snn.get_layers()[0].get_intra_weights(), &vec![vec![-500]]);
}

#[test]
fn test_intra_layer_weights_with_more_than_one_neuron() {
    let n = || LifNeuron::new(300, 50, 100, 0);
    let snn = SnnBuilder::new(2)
        .add_layer(
            vec![n(), n(), n()],
            vec![vec![100, 200], vec![300, 400], vec![500, 600]],
            vec![vec![0, -100, -150], vec![-50, 0, -100], vec![-150, -100, 0]],
        )
        .unwrap()
        .build()
        .unwrap();
    assert_eq!(
        snn.get_layers()[0].get_intra_weights(),
        &vec![vec![0, -100, -150], vec![-50, 0, -100], vec![-150, -100, 0]]
    );
}

#[test]
fn test_complete_snn() {
    let n = || LifNeuron::new(300, 50, 100, 0);
    let snn = SnnBuilder::new(2)
        .add_layer(
            vec![n(), n(), n()],
            vec![vec![100, 200], vec![300, 400], vec![500, 600]],
            vec![vec![0, -100, -150], vec![-50, 0, -100], vec![-150, -100, 0]],
        )
        .unwrap()
        .add_layer(
            vec![n(), n()],
            vec![vec![700, 200, 100], vec![300, 800, 200]],
            vec![vec![0, -300], vec![-200, 0]],
        )
        .unwrap()
        .build()
        .unwrap();

    let layers = snn.get_layers();
    assert_eq!(snn.get_layers_number(), 2);
    assert_eq!(layers[0].get_neurons_number(), 3);
    assert_eq!(layers[1].get_neurons_number(), 2);
    assert_eq!(layers[0].get_weights().len(), 3);
    assert_eq!(layers[0].get_weights()[0].len(), 2);
    assert_eq!(layers[1].get_weights().len(), 2);
    assert_eq!(layers[1].get_weights()[0].len(), 3);
    assert_eq!(layers[1].get_intra_weights().len(), 2);
}

#[test]
fn test_snn_with_negative_weights() {
    let result = SnnBuilder::new(2).add_layer(
        vec![LifNeuron::new(300, 50, 100, 0)],
        vec![vec![-200, 500]],
        vec![vec![0]],
    );
    assert_eq!(result.err(), Some(BuildError::NegativeWeight));
}

#[test]
fn test_snn_with_positive_intra_weights() {
    let result = SnnBuilder::new(2).add_layer(
        vec![
            LifNeuron::new(300, 50, 100, 0),
            LifNeuron::new(300, 50, 100, 0),
        ],
        vec![vec![200, 500], vec![300, 400]],
        vec![vec![0, 500], vec![-500, 0]],
    );
    assert_eq!(result.err(), Some(BuildError::PositiveIntraWeight));
}

#[test]
fn test_snn_with_wrong_intra_rows() {
    let result = SnnBuilder::new(2).add_layer(
        vec![
            LifNeuron::new(300, 50, 100, 0),
            LifNeuron::new(300, 50, 100, 0),
        ],
        vec![vec![200, 500], vec![300, 400]],
        vec![vec![0, -500]],
    );
    assert_eq!(result.err(), Some(BuildError::IntraRowsMismatch));
}

#[test]
fn test_snn_with_wrong_intra_cols() {
    let result = SnnBuilder::new(2).add_layer(
        vec![
            LifNeuron::new(300, 50, 100, 0),
            LifNeuron::new(300, 50, 100, 0),
        ],
        vec![vec![200, 500], vec![300, 400]],
        vec![vec![0, -500], vec![-500]],
    );
    assert_eq!(result.err(), Some(BuildError::IntraColsMismatch));
}

#[test]
fn test_snn_with_wrong_weight_rows() {
    let result = SnnBuilder::new(2).add_layer(
        vec![
            LifNeuron::new(300, 50, 100, 0),
            LifNeuron::new(300, 50, 100, 0),
        ],
        vec![vec![200, 500]],
        vec![vec![0, -500], vec![-500, 0]],
    );
    assert_eq!(result.err(), Some(BuildError::WeightRowsMismatch));
}

#[test]
fn test_snn_with_wrong_weight_cols() {
    let result = SnnBuilder::new(2).add_layer(
        vec![
            LifNeuron::new(300, 50, 100, 0),
            LifNeuron::new(300, 50, 100, 0),
        ],
        vec![vec![200, 500], vec![300]],
        vec![vec![0, -500], vec![-500, 0]],
    );
    assert_eq!(result.err(), Some(BuildError::WeightColsMismatch));
}

#[test]
fn test_snn_with_empty_layer() {
    let result =
        SnnBuilder::<LifNeuron>::new(2).add_layer(vec![], vec![], vec![]);
    assert_eq!(result.err(), Some(BuildError::EmptyLayer));
}

#[test]
fn test_snn_without_layers() {
    let result = SnnBuilder::<LifNeuron>::new(2).build();
    assert_eq!(result.err(), Some(BuildError::ZeroLayers));
}
