//! A trusted verifier and cost evaluator for tensor programs.

pub mod canon;
pub mod fixed_point;
pub mod guarantees;
pub mod cost;
pub mod expand;
pub mod id_map;
pub mod independence;
pub mod invariance;
pub mod model;
pub mod rational;
pub mod search;
pub mod symmetry;
pub mod term_order;
pub mod text;
pub mod validate;
pub mod validity;
pub mod verify;

pub use cost::{symbolic_flops, CostError, FlopTerm, SymbolicFlops};
pub use id_map::IdMap;
pub use model::{
    Code, DomainId, Einsum, IndexId, LinComb, Problem, Program, SymmetryGenerator, TensorId,
    ValueDef, ValueId, ValueRef,
};
pub use rational::Coefficient;
pub use validate::{validate, ValidationError};
pub use verify::verify;
