pub mod engine;
pub mod id;
pub mod laws;
pub mod layer;
pub mod mlp;
pub mod mnist;
pub mod model;
pub mod neuron;
pub mod operation;
pub mod rational;
pub mod value;

pub use engine::Engine;
pub use engine::Value;
pub use id::Identifier;
pub use layer::Layer;
pub use mlp::MLP;
pub use neuron::Neuron;
pub use operation::Operation;
pub use rational::Rat;
