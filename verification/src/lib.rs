//! Replays a captured log of datastore commands with the original
//! inter-command pacing.
//!
//! The library holds the replay timing engine: parsing raw monitor-log
//! lines into structured, timestamped commands (`command`), the signed
//! microsecond clock those timestamps live in (`micros`), the stream state
//! that counts lines, fixes the one-shot clock offset and schedules each
//! command at its recorded instant (`replay`), and the explicit run
//! configuration (`config`). File reading, the progress bar, logging and
//! the destination connection are thin unverified shells around these.
pub mod command;
pub mod config;
pub mod digits;
pub mod micros;
pub mod replay;
