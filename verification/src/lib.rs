//! Diagnoses Application-Not-Responding incidents from Android-style
//! thread-dump text.  Given a process and an approximate time, the library
//! locates the right snapshot in a trace, classifies why the main thread was
//! blocked (a lock wait, an outgoing cross-process call, or neither), walks
//! the chain of blocking owners across threads until a terminal thread, a
//! dead end, or a suspected cycle, and groups recurring incidents by their
//! normalized stack signature.  Reading and writing files stays with the
//! caller: the engine works over an in-memory line cursor and returns its
//! reconstruction as lines.

use vstd::prelude::*;

pub mod anr_result_bean;
pub mod cli_parser;
pub mod cursor;
pub mod file_utils;
pub mod lock_bean;
pub mod log_item_bean;
pub mod result_item_bean;
pub mod text;
pub mod trace_analysis;

verus! {

/// An analysis pass over one trace file: anything that can turn a file and a
/// parameter string into resolved incidents.
pub trait Analyse {
    fn analyse(&self, file: &str, param_string: &str) -> Vec<
        result_item_bean::ResultItemBean,
    >;
}

} // verus!
