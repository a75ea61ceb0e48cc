//! Evolution of communication protocols over balanced ternary values {-1, 0, +1}:
//! signal pools, meaning negotiation, competing grammars, signal drift,
//! creolization of dialects and minimal proto-languages.

pub mod assoc;
pub mod creole;
pub mod drift;
pub mod evolution;
pub mod grammar;
pub mod laws;
pub mod negotiation;
pub mod proto;
pub mod signal;
pub mod ternary;

pub use creole::Creolization;
pub use drift::SignalDrift;
pub use evolution::ProtocolEvolution;
pub use grammar::{Grammar, GrammarEvolution, GrammarRule};
pub use negotiation::MeaningNegotiation;
pub use proto::ProtoLanguage;
pub use signal::{Signal, SignalPool};
pub use ternary::Ternary;
