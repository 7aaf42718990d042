//! A verified model of the runtime intermediate representation (RIR) of a quantum
//! compiler back end, the analysis of the runtime capabilities a program needs,
//! and the RIR passes that renumber blocks, place values in SSA form and insert
//! explicit memory operations.
pub mod builder;
pub mod fx;
pub mod index_map;
pub mod insert_alloca_load;
pub mod remap_block_ids;
pub mod partial_eval;
pub mod rca;
pub mod rir;
pub mod ssa_transform;
pub mod target;
pub mod utils;
