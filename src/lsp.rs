//! Turning analysis results into editor highlights and diagnostics.
pub mod file_index;
pub mod global_ctxt;
pub mod lockbud_ty;
