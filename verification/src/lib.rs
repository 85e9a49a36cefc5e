//! NEMESIS control-plane core: telemetry ring buffers, the topology DSL
//! (lexer, parser, type checker), the cluster topology graph and its placement
//! solver, and the communicator-healing decision logic.

pub mod ring;
pub mod telemetry;
pub mod text;
pub mod lexer;
pub mod parser;
pub mod checker;
pub mod graph;
pub mod path_search;
pub mod solver;
pub mod nccl;
pub mod healer;
pub mod scheduler;
pub mod simcluster;
