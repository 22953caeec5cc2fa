//! A verified crossword engine: a binary puzzle-file decoder, clue-numbering
//! derivation, and an interactive solving-grid state machine.

pub mod api_types;
pub mod import_puz;
pub mod numbering;
pub mod state;
