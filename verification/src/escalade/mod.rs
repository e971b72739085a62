//! ESCALADE: broadband pulse design for an ensemble of uncoupled spins.
//! The verified part cuts an evaluation's work into pieces, settles a
//! problem's spin count, and decides which held evaluation serves a request.
pub mod objective;
pub mod settings;
pub mod solve;
