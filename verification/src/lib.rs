//! Finds page copies in memory traces of an emulated machine and prepares the traces for a memory
//! simulator.
pub mod copy_laws;
pub mod copy_run;
pub mod copy_window;
pub mod kernel_log;
pub mod log_parser;
pub mod memory_access;
pub mod pattern;
pub mod report;
pub mod rowclone;
pub mod rowclone_found;
pub mod rowclone2;
pub mod rowclone2_found;
pub mod rowclone2_laws;
pub mod rowclone_analysis;
pub mod rowclone_laws;
pub mod text;
pub mod trace_debug;
pub mod trace_debug_found;
pub mod trace_debug_laws;
pub mod transformer;
