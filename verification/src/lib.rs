//! A coverage-guided, mutation-based fuzzing engine: the feedback loop
//! between per-line hit reports, an energy-ordered seed pool and a
//! mutation engine.
pub mod fuzzer;
pub mod mutator;
pub mod random;
pub mod scheduler;
pub mod text;
