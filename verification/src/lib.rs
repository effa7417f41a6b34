//! A spiking neural network, organized as ordered layers of neurons.
//!
//! A caller supplies, per time instant, a binary spike vector for every input
//! channel over a fixed duration; the network produces a binary spike vector
//! for every output-layer neuron at every instant.  Weights are fixed-point
//! values held as plain integers: a caller chooses a scale and divides it back
//! out inside its neuron model.
//!
//! The pieces, from the leaves up: the neuron capability (`neuron`) with one
//! shipped model (`lif`); spike events and the per-stage stream predicates
//! (`event`); the layer engine (`layer`); the pipeline orchestrator
//! (`processor`); the network with its event codec and processing call
//! (`snn`); and the validating builder (`builder`).

#![verifier::loop_isolation(false)]

pub mod builder;
pub mod event;
pub mod layer;
pub mod lif;
pub mod lines;
pub mod neuron;
pub mod processor;
pub mod snn;
