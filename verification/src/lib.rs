//! A variable-order Markov chain: it learns from sequences of symbols how
//! often each symbol follows each run of up to `order` symbols, and draws
//! new symbols in proportion to what it has learned, backing off to a
//! shorter context where the longer one was never seen.
pub mod assoc;
pub mod context;
pub mod distribution;
pub mod error;
pub mod known;
pub mod model;
pub mod symbol;
pub mod table;
pub mod training;
pub mod weight;

pub use distribution::Distribution;
pub use error::TrainingError;
pub use known::KnownStates;
pub use model::MultiMarkovModel;
pub use symbol::Symbol;
pub use table::FrequencyTable;
pub use weight::OBSERVATION;
