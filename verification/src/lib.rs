//! Core of a tensor-computation compiler: a symbolic shape/layout tracker
//! that turns reshape/permute/slice/pad/broadcast histories into closed-form
//! stride, validity and indexing computations, and a graph-rewriting engine
//! that fuses operator subgraphs (2D matrix multiply reconstruction, chains
//! of elementwise unary operators) while keeping external node references
//! valid across graph surgery.

pub mod expr;
pub mod graph;
pub mod indexing;
pub mod laws;
pub mod ops;
pub mod optimizers;
pub mod shape;
pub mod tensor;

pub use expr::Expr;
pub use graph::Graph;
pub use indexing::Indexer;
pub use ops::Op;
pub use ops::UnaryOp;
pub use optimizers::MatMulOptimizer;
pub use optimizers::UnaryFusionOptimizer;
pub use shape::resolve_local_dyn_dims;
pub use shape::Dim;
pub use shape::ShapeTracker;
pub use tensor::GraphTensor;
