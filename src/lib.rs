//! Sparse GF2 parity-check matrices, an erasure decoder built on their rank,
//! and a reproducible Monte-Carlo harness that estimates decoding failure rates.

mod decoder;
mod erasure;
mod gf2;
mod matrix;
mod random;
mod ranker;
mod simulation_result;
mod simulator;

pub use decoder::Decoder;
pub use erasure::{ErasureDecoder, ErasureResult, ERASURE_THRESHOLD_SCALE};
pub use gf2::GF2;
pub use matrix::{CheckView, ParityCheckMatrix};
pub use random::StreamRng;
pub use ranker::Ressources;
pub use simulation_result::{DecodingResult, SimulationResult};
pub use simulator::{
    combine_stream_results, initialize_random_seeds, simulate_thread_until_one_event_is_found,
    simulate_until_n_events_are_found,
};
