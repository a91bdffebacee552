//! A Minesweeper engine: seeded board generation, flood-fill reveal,
//! flag toggling and chord reveal, with a win/loss state machine.

pub mod board;
pub mod view;
