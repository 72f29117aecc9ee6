//! Synthetic graph generators built from compact textual specifications.
//!
//! A specification such as `"erdos_renyi/10,0.5"` names a random-graph model
//! and its parameters. Binding it yields a generator which, driven by a
//! `Pcg32` random source, draws graph instances on demand. Binding checks
//! everything; sampling cannot fail.
//!
//! Models, by name and alias: `barabasi_albert` (`ba`) with `n,m`;
//! `chain` with `n`; `erdos_renyi` (`er`) with `n,p`; `tree` with `n`;
//! `watts_strogatz` (`ws`) with `n,k,p`. A count is written in decimal
//! digits; a probability as a decimal in `[0, 1]` such as `0.25`, `.5` or
//! `1`, with at most eighteen digits after the point.

mod random;
pub mod graph;
pub mod parse;
pub mod model;
pub mod sample;
pub mod generators;
pub mod laws;

pub use generators::{
    directed_generator_factory_from_str, iter_directed_generator_factories,
    iter_undirected_generator_factories, undirected_generator_factory_from_str, DirectedGenerator,
    UndirectedGenerator,
};
pub use graph::EdgeList;
pub use model::{GenError, GeneratorFactory, Model, ParamKind, Params, Probability};
pub use parse::GraphSpec;
