//! Rotating snapshot store for a single watched save file.
//!
//! The library holds the logic of a small backup tool: naming a snapshot
//! after the moment it was taken, deciding which snapshots a retention
//! pass deletes, and turning raw console input into effective settings.
//! The surrounding process (prompts, file copies, directory listing,
//! sleeping between ticks) lives outside and feeds this library plain
//! values.

pub mod clock;
pub mod retention;
pub mod settings;
pub mod timestamp;
