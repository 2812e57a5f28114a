//! Root-cause analysis of cycle-collector heap dumps: a line parser for the
//! textual log, the reference graph it describes, and a breadth-first search
//! that explains why an object is still reachable.
pub mod cc_log;
pub mod log_line;
pub mod string_intern;
pub mod find_roots;
pub mod log_format;
