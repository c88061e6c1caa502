//! Hive mind mechanics: stigmergy, decaying salience, quorum sensing,
//! cross-inhibition, and a response-threshold bid for the floor, as integer
//! folds over a transcript the caller already holds.

pub mod attention;
pub mod directory;
pub mod division;
pub mod episode;
pub mod error;
pub mod horizon;
pub mod names;
pub mod order;
pub mod quorum;
pub mod salience;
pub mod session;
pub mod text;
pub mod trace;
pub mod window;
