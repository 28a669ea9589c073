//! A verified core for a command-line journal: tasks with creation times,
//! stored as a JSON array in a single file. The modules here parse and
//! produce the file's exact text, append and remove tasks, and render the
//! listing; reading and writing the file itself stays with the caller.
pub mod cli;
pub mod codec;
pub mod errors;
pub mod journal;
pub mod json;
pub mod task;
mod ext;
